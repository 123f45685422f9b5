//! permessage-deflate (RFC 7692): window bits, the extension's parameters,
//! the header text that offers them and the parser that reads them back.
use vstd::prelude::*;
use crate::codec::frame::{FrameConfig, ValidateUtf8Policy, default_frame_config};
use crate::errors::WsError;
use crate::protocol::{
    HttpRequest, HttpResponse, HandshakeResponse, default_handshake_handler, default_status, default_headers,
    default_body, pair_views, visible_ascii, resp_check_error, standard_handshake_resp_check,
};
use crate::strings::{
    lower_s, trim_s, trim_start_s, trim_char_s, starts_with_s, strip_prefix_all, split_on, crlf_count,
    parse_u8_s, decimal, int_error_message, chars_of, string_of, lower_chars, trim, trim_start,
    trim_char, starts_with, chars_eq, trim_start_matches, split, count_crlf, parse_u8, push_decimal,
    lemma_split_on_nonempty, join_with, lacks, is_ws, is_digit, lemma_split_without_sep,
    lemma_split_first, lemma_crlf_none, lemma_lower_identity, lemma_trim_identity, lemma_trim_space,
    lemma_strip_once, lemma_trim_char_lead, lemma_small_decimal,
};

verus! {

/// permessage-deflate window bit
#[derive(Debug, Clone, Copy, PartialEq, Eq, Structural)]
pub enum WindowBit {
    Eight,
    Nine,
    Ten,
    Eleven,
    Twelve,
    Thirteen,
    Fourteen,
    Fifteen,
}

/// the number of bits a window bit stands for
pub open spec fn window_bits(w: WindowBit) -> u8 {
    match w {
        WindowBit::Eight => 8,
        WindowBit::Nine => 9,
        WindowBit::Ten => 10,
        WindowBit::Eleven => 11,
        WindowBit::Twelve => 12,
        WindowBit::Thirteen => 13,
        WindowBit::Fourteen => 14,
        WindowBit::Fifteen => 15,
    }
}

/// the window bit of a number of bits, for 8 to 15
pub open spec fn window_bit_of(v: int) -> Option<WindowBit> {
    if v == 8 {
        Some(WindowBit::Eight)
    } else if v == 9 {
        Some(WindowBit::Nine)
    } else if v == 10 {
        Some(WindowBit::Ten)
    } else if v == 11 {
        Some(WindowBit::Eleven)
    } else if v == 12 {
        Some(WindowBit::Twelve)
    } else if v == 13 {
        Some(WindowBit::Thirteen)
    } else if v == 14 {
        Some(WindowBit::Fourteen)
    } else if v == 15 {
        Some(WindowBit::Fifteen)
    } else {
        None
    }
}

impl WindowBit {
    /// the number of bits
    pub fn as_u8(&self) -> (r: u8)
        ensures
            r == window_bits(*self),
    {
        match self {
            WindowBit::Eight => 8,
            WindowBit::Nine => 9,
            WindowBit::Ten => 10,
            WindowBit::Eleven => 11,
            WindowBit::Twelve => 12,
            WindowBit::Thirteen => 13,
            WindowBit::Fourteen => 14,
            WindowBit::Fifteen => 15,
        }
    }

    /// the window bit of a number of bits; the number back for one outside 8..=15
    pub fn try_from_u8(value: u8) -> (r: Result<WindowBit, u8>)
        ensures
            match window_bit_of(value as int) {
                Some(w) => r == Ok::<WindowBit, u8>(w),
                None => r == Err::<WindowBit, u8>(value),
            },
    {
        match value {
            8 => Ok(WindowBit::Eight),
            9 => Ok(WindowBit::Nine),
            10 => Ok(WindowBit::Ten),
            11 => Ok(WindowBit::Eleven),
            12 => Ok(WindowBit::Twelve),
            13 => Ok(WindowBit::Thirteen),
            14 => Ok(WindowBit::Fourteen),
            15 => Ok(WindowBit::Fifteen),
            _ => Err(value),
        }
    }
}

/// Every window bit is found again from its number of bits.
pub proof fn lemma_window_bit_roundtrip(w: WindowBit)
    ensures
        window_bit_of(window_bits(w) as int) == Some(w),
        8 <= window_bits(w) <= 15,
{
}

/// permessage-deflate
#[derive(Debug, Clone, Copy, PartialEq, Eq, Structural)]
pub struct PMDConfig {
    pub server_no_context_takeover: bool,
    pub client_no_context_takeover: bool,
    pub server_max_window_bits: WindowBit,
    pub client_max_window_bits: WindowBit,
}

/// the default: context takeover on both sides, 15 window bits each
pub open spec fn pmd_default() -> PMDConfig {
    PMDConfig {
        server_no_context_takeover: false,
        client_no_context_takeover: false,
        server_max_window_bits: WindowBit::Fifteen,
        client_max_window_bits: WindowBit::Fifteen,
    }
}

impl Default for PMDConfig {
    fn default() -> (r: Self)
        ensures
            r == pmd_default(),
    {
        Self {
            server_no_context_takeover: false,
            client_no_context_takeover: false,
            server_max_window_bits: WindowBit::Fifteen,
            client_max_window_bits: WindowBit::Fifteen,
        }
    }
}

/// the extension's name
pub open spec fn ext_id() -> Seq<char> {
    "permessage-deflate"@
}

/// the server_no_context_takeover parameter
pub open spec fn server_nct_key() -> Seq<char> {
    "server_no_context_takeover"@
}

/// the client_no_context_takeover parameter
pub open spec fn client_nct_key() -> Seq<char> {
    "client_no_context_takeover"@
}

/// the server_max_window_bits parameter
pub open spec fn server_mwb_key() -> Seq<char> {
    "server_max_window_bits"@
}

/// the client_max_window_bits parameter
pub open spec fn client_mwb_key() -> Seq<char> {
    "client_max_window_bits"@
}

/// the header text that offers these parameters
pub open spec fn ext_text(
    server_no_context_takeover: bool,
    client_no_context_takeover: bool,
    server_max_window_bits: WindowBit,
    client_max_window_bits: WindowBit,
) -> Seq<char> {
    "permessage-deflate;"@ + (if client_no_context_takeover {
        "client_no_context_takeover; "@
    } else {
        Seq::empty()
    }) + (if server_no_context_takeover {
        "server_no_context_takeover; "@
    } else {
        Seq::empty()
    }) + "client_max_window_bits="@ + decimal(window_bits(client_max_window_bits) as int) + ";"@
        + "server_max_window_bits="@ + decimal(window_bits(server_max_window_bits) as int)
}

fn ext_text_of(
    server_no_context_takeover: bool,
    client_no_context_takeover: bool,
    server_max_window_bits: WindowBit,
    client_max_window_bits: WindowBit,
) -> (r: String)
    ensures
        r@ == ext_text(
            server_no_context_takeover,
            client_no_context_takeover,
            server_max_window_bits,
            client_max_window_bits,
        ),
{
    let mut s = String::from_str("permessage-deflate;");
    if client_no_context_takeover {
        s.append("client_no_context_takeover; ");
    }
    if server_no_context_takeover {
        s.append("server_no_context_takeover; ");
    }
    s.append("client_max_window_bits=");
    push_decimal(&mut s, client_max_window_bits.as_u8() as u64);
    s.append(";");
    s.append("server_max_window_bits=");
    push_decimal(&mut s, server_max_window_bits.as_u8() as u64);
    s
}

impl PMDConfig {
    /// get extension string
    pub fn ext_string(&self) -> (r: String)
        ensures
            r@ == ext_text(
                self.server_no_context_takeover,
                self.client_no_context_takeover,
                self.server_max_window_bits,
                self.client_max_window_bits,
            ),
    {
        ext_text_of(
            self.server_no_context_takeover,
            self.client_no_context_takeover,
            self.server_max_window_bits,
            self.client_max_window_bits,
        )
    }

    /// helper function to build multi permessage deflate config header
    pub fn multi_ext_string(configs: &[PMDConfig]) -> (r: String)
        ensures
            r@ == join_with(
                configs@.map_values(
                    |c: PMDConfig|
                        ext_text(
                            c.server_no_context_takeover,
                            c.client_no_context_takeover,
                            c.server_max_window_bits,
                            c.client_max_window_bits,
                        ),
                ),
                ", "@,
            ),
    {
        let ghost texts = configs@.map_values(
            |c: PMDConfig|
                ext_text(
                    c.server_no_context_takeover,
                    c.client_no_context_takeover,
                    c.server_max_window_bits,
                    c.client_max_window_bits,
                ),
        );
        let n = configs.len();
        if n == 0 {
            return String::new();
        }
        let mut i: usize = n - 1;
        let mut s = configs[i].ext_string();
        assert(texts.skip(i as int) =~= seq![texts[i as int]]);
        while i > 0
            invariant
                0 <= i < n == configs@.len(),
                texts.len() == n,
                texts == configs@.map_values(
                    |c: PMDConfig|
                        ext_text(
                            c.server_no_context_takeover,
                            c.client_no_context_takeover,
                            c.server_max_window_bits,
                            c.client_max_window_bits,
                        ),
                ),
                s@ == join_with(texts.skip(i as int), ", "@),
            decreases i,
        {
            i -= 1;
            let mut t = configs[i].ext_string();
            t.append(", ");
            t.append(s.as_str());
            assert(texts.skip(i as int).drop_first() =~= texts.skip(i + 1));
            assert(texts.skip(i as int)[0] == texts[i as int]);
            s = t;
        }
        assert(texts.skip(0) =~= texts);
        s
    }
}

/// permessage-deflate parameters, with context takeover off by default
#[derive(Debug, Clone, Copy, PartialEq, Eq, Structural)]
pub struct PMGConfig {
    pub server_no_context_takeover: bool,
    pub client_no_context_takeover: bool,
    pub server_max_window_bits: WindowBit,
    pub client_max_window_bits: WindowBit,
}

impl Default for PMGConfig {
    fn default() -> (r: Self)
        ensures
            r == (PMGConfig {
                server_no_context_takeover: true,
                client_no_context_takeover: true,
                server_max_window_bits: WindowBit::Fifteen,
                client_max_window_bits: WindowBit::Fifteen,
            }),
    {
        Self {
            server_no_context_takeover: true,
            client_no_context_takeover: true,
            server_max_window_bits: WindowBit::Fifteen,
            client_max_window_bits: WindowBit::Fifteen,
        }
    }
}

impl PMGConfig {
    /// get extension string
    pub fn ext_string(&self) -> (r: String)
        ensures
            r@ == ext_text(
                self.server_no_context_takeover,
                self.client_no_context_takeover,
                self.server_max_window_bits,
                self.client_max_window_bits,
            ),
    {
        ext_text_of(
            self.server_no_context_takeover,
            self.client_no_context_takeover,
            self.server_max_window_bits,
            self.client_max_window_bits,
        )
    }

    /// helper function to build multi permessage deflate config header
    pub fn multi_ext_string(configs: &[PMGConfig]) -> (r: String)
        ensures
            r@ == join_with(
                configs@.map_values(
                    |c: PMGConfig|
                        ext_text(
                            c.server_no_context_takeover,
                            c.client_no_context_takeover,
                            c.server_max_window_bits,
                            c.client_max_window_bits,
                        ),
                ),
                ", "@,
            ),
    {
        let ghost texts = configs@.map_values(
            |c: PMGConfig|
                ext_text(
                    c.server_no_context_takeover,
                    c.client_no_context_takeover,
                    c.server_max_window_bits,
                    c.client_max_window_bits,
                ),
        );
        let n = configs.len();
        if n == 0 {
            return String::new();
        }
        let mut i: usize = n - 1;
        let mut s = configs[i].ext_string();
        assert(texts.skip(i as int) =~= seq![texts[i as int]]);
        while i > 0
            invariant
                0 <= i < n == configs@.len(),
                texts.len() == n,
                texts == configs@.map_values(
                    |c: PMGConfig|
                        ext_text(
                            c.server_no_context_takeover,
                            c.client_no_context_takeover,
                            c.server_max_window_bits,
                            c.client_max_window_bits,
                        ),
                ),
                s@ == join_with(texts.skip(i as int), ", "@),
            decreases i,
        {
            i -= 1;
            let mut t = configs[i].ext_string();
            t.append(", ");
            t.append(s.as_str());
            assert(texts.skip(i as int).drop_first() =~= texts.skip(i + 1));
            assert(texts.skip(i as int)[0] == texts[i as int]);
            s = t;
        }
        assert(texts.skip(0) =~= texts);
        s
    }
}

/// the frame config the deflate states run their frame layer with: masking
/// and fragmenting as configured, no rsv check, no merging, no UTF-8 check
pub open spec fn low_level_config(conf: FrameConfig) -> FrameConfig {
    FrameConfig {
        mask_send_frame: conf.mask_send_frame,
        check_rsv: false,
        auto_fragment_size: conf.auto_fragment_size,
        merge_frame: false,
        validate_utf8: ValidateUtf8Policy::Off,
        ..default_frame_config()
    }
}

pub(crate) fn gen_low_level_config(conf: &FrameConfig) -> (r: FrameConfig)
    ensures
        r == low_level_config(*conf),
{
    FrameConfig {
        mask_send_frame: conf.mask_send_frame,
        check_rsv: false,
        auto_fragment_size: conf.auto_fragment_size,
        merge_frame: false,
        validate_utf8: ValidateUtf8Policy::Off,
        ..FrameConfig::default()
    }
}

/// which parameters were seen: (server_no_context_takeover,
/// client_no_context_takeover, server_max_window_bits, client_max_window_bits)
pub type Seen = (bool, bool, bool, bool);

/// the window bits a `..._max_window_bits` parameter (lowercased, with
/// something after the name) sets, or the error message
pub open spec fn window_bits_param(lower: Seq<char>, key: Seq<char>) -> Result<WindowBit, Seq<char>> {
    let remain = trim_start_s(strip_prefix_all(lower, key));
    if !starts_with_s(remain, seq!['=']) {
        Err("invalid param value"@)
    } else {
        match parse_u8_s(trim_char_s(remain, '=')) {
            Ok(n) => match window_bit_of(n) {
                Some(w) => Ok(w),
                None => Err("invalid param value "@ + decimal(n)),
            },
            Err(k) => Err("invalid param value "@ + int_error_message(k)),
        }
    }
}

/// the config and the parameters seen after one parameter, or the error
/// message; the name is matched case-insensitively after trimming, and a
/// parameter given twice in one offer is an error
pub open spec fn parse_param(conf: PMDConfig, seen: Seen, param: Seq<char>) -> Result<(PMDConfig, Seen), Seq<char>> {
    let lower = lower_s(trim_s(param));
    if starts_with_s(lower, server_nct_key()) {
        if seen.0 {
            Err("got multiple server_no_context_takeover params"@)
        } else if lower.len() != server_nct_key().len() {
            Err("server_no_context_takeover does not expect param"@)
        } else {
            Ok((PMDConfig { server_no_context_takeover: true, ..conf }, (true, seen.1, seen.2, seen.3)))
        }
    } else if starts_with_s(lower, client_nct_key()) {
        if seen.1 {
            Err("got multiple client_no_context_takeover params"@)
        } else if lower.len() != client_nct_key().len() {
            Err("client_no_context_takeover does not expect param"@)
        } else {
            Ok((PMDConfig { client_no_context_takeover: true, ..conf }, (seen.0, true, seen.2, seen.3)))
        }
    } else if starts_with_s(lower, server_mwb_key()) {
        if seen.2 {
            Err("got multiple server_max_window_bits params"@)
        } else if lower == server_mwb_key() {
            Ok((conf, (seen.0, seen.1, true, seen.3)))
        } else {
            match window_bits_param(lower, server_mwb_key()) {
                Ok(w) => Ok((PMDConfig { server_max_window_bits: w, ..conf }, (seen.0, seen.1, true, seen.3))),
                Err(e) => Err(e),
            }
        }
    } else if starts_with_s(lower, client_mwb_key()) {
        if seen.3 {
            Err("got multiple client_max_window_bits params"@)
        } else if lower == client_mwb_key() {
            Ok((conf, (seen.0, seen.1, seen.2, true)))
        } else {
            match window_bits_param(lower, client_mwb_key()) {
                Ok(w) => Ok((PMDConfig { client_max_window_bits: w, ..conf }, (seen.0, seen.1, seen.2, true))),
                Err(e) => Err(e),
            }
        }
    } else {
        Err("unknown param "@ + param)
    }
}

/// the config after the parameters, in order, or the first error
pub open spec fn parse_params(conf: PMDConfig, seen: Seen, params: Seq<Seq<char>>) -> Result<PMDConfig, Seq<char>>
    decreases params.len(),
{
    if params.len() == 0 {
        Ok(conf)
    } else {
        match parse_param(conf, seen, params[0]) {
            Ok((c, s)) => parse_params(c, s, params.drop_first()),
            Err(e) => Err(e),
        }
    }
}

/// `configs` before the configs of `r`, or the error of `r`
pub open spec fn prepend_configs(configs: Seq<PMDConfig>, r: Result<Seq<PMDConfig>, Seq<char>>) -> Result<
    Seq<PMDConfig>,
    Seq<char>,
> {
    match r {
        Ok(rest) => Ok(configs + rest),
        Err(e) => Err(e),
    }
}

/// the configs of the comma-separated parts that name the extension, or
/// the first error; other parts are passed over
pub open spec fn parse_parts(parts: Seq<Seq<char>>) -> Result<Seq<PMDConfig>, Seq<char>>
    decreases parts.len(),
{
    if parts.len() == 0 {
        Ok(Seq::empty())
    } else if starts_with_s(lower_s(trim_start_s(parts[0])), ext_id()) {
        match parse_params(pmd_default(), (false, false, false, false), split_on(parts[0], ';').drop_first()) {
            Ok(c) => prepend_configs(seq![c], parse_parts(parts.drop_first())),
            Err(e) => Err(e),
        }
    } else {
        parse_parts(parts.drop_first())
    }
}

/// what `PMDConfig::parse_str` returns for a header value
pub open spec fn parse_ext_header(source: Seq<char>) -> Result<Seq<PMDConfig>, Seq<char>> {
    if crlf_count(source) >= 2 {
        Err("should not contain multi line"@)
    } else {
        parse_parts(split_on(source, ','))
    }
}

fn parse_window_bits(lower: &[char], key: &[char]) -> (r: Result<WindowBit, String>)
    ensures
        match r {
            Ok(w) => window_bits_param(lower@, key@) == Ok::<WindowBit, Seq<char>>(w),
            Err(e) => window_bits_param(lower@, key@) == Err::<WindowBit, Seq<char>>(e@),
        },
{
    let stripped = trim_start_matches(lower, key);
    let remain = trim_start(stripped.as_slice());
    let eq = ['='];
    assert(eq@ =~= seq!['=']);
    if !starts_with(remain.as_slice(), eq.as_slice()) {
        return Err(String::from_str("invalid param value"));
    }
    let value = trim_char(remain.as_slice(), '=');
    match parse_u8(value.as_slice()) {
        Ok(n) => match WindowBit::try_from_u8(n) {
            Ok(w) => Ok(w),
            Err(v) => {
                let mut e = String::from_str("invalid param value ");
                push_decimal(&mut e, v as u64);
                Err(e)
            },
        },
        Err(k) => {
            let mut e = String::from_str("invalid param value ");
            let m = k.message();
            e.append(m.as_str());
            Err(e)
        },
    }
}

fn parse_one_param(conf: PMDConfig, seen: Seen, param: &[char]) -> (r: Result<(PMDConfig, Seen), String>)
    ensures
        match r {
            Ok(v) => parse_param(conf, seen, param@) == Ok::<(PMDConfig, Seen), Seq<char>>(v),
            Err(e) => parse_param(conf, seen, param@) == Err::<(PMDConfig, Seen), Seq<char>>(e@),
        },
{
    let trimmed = trim(param);
    let lower = lower_chars(trimmed.as_slice());
    let snct = chars_of("server_no_context_takeover");
    let cnct = chars_of("client_no_context_takeover");
    let smwb = chars_of("server_max_window_bits");
    let cmwb = chars_of("client_max_window_bits");
    if starts_with(lower.as_slice(), snct.as_slice()) {
        if seen.0 {
            return Err(String::from_str("got multiple server_no_context_takeover params"));
        }
        if lower.len() != snct.len() {
            return Err(String::from_str("server_no_context_takeover does not expect param"));
        }
        return Ok((PMDConfig { server_no_context_takeover: true, ..conf }, (true, seen.1, seen.2, seen.3)));
    }
    if starts_with(lower.as_slice(), cnct.as_slice()) {
        if seen.1 {
            return Err(String::from_str("got multiple client_no_context_takeover params"));
        }
        if lower.len() != cnct.len() {
            return Err(String::from_str("client_no_context_takeover does not expect param"));
        }
        return Ok((PMDConfig { client_no_context_takeover: true, ..conf }, (seen.0, true, seen.2, seen.3)));
    }
    if starts_with(lower.as_slice(), smwb.as_slice()) {
        if seen.2 {
            return Err(String::from_str("got multiple server_max_window_bits params"));
        }
        if chars_eq(lower.as_slice(), smwb.as_slice()) {
            return Ok((conf, (seen.0, seen.1, true, seen.3)));
        }
        return match parse_window_bits(lower.as_slice(), smwb.as_slice()) {
            Ok(w) => Ok((PMDConfig { server_max_window_bits: w, ..conf }, (seen.0, seen.1, true, seen.3))),
            Err(e) => Err(e),
        };
    }
    if starts_with(lower.as_slice(), cmwb.as_slice()) {
        if seen.3 {
            return Err(String::from_str("got multiple client_max_window_bits params"));
        }
        if chars_eq(lower.as_slice(), cmwb.as_slice()) {
            return Ok((conf, (seen.0, seen.1, seen.2, true)));
        }
        return match parse_window_bits(lower.as_slice(), cmwb.as_slice()) {
            Ok(w) => Ok((PMDConfig { client_max_window_bits: w, ..conf }, (seen.0, seen.1, seen.2, true))),
            Err(e) => Err(e),
        };
    }
    let mut e = String::from_str("unknown param ");
    let p = string_of(param);
    e.append(p.as_str());
    Err(e)
}

impl PMDConfig {
    /// case-insensitive parse one line header
    pub fn parse_str(source: &str) -> (r: Result<Vec<Self>, String>)
        ensures
            match r {
                Ok(v) => parse_ext_header(source@) == Ok::<Seq<PMDConfig>, Seq<char>>(v@),
                Err(e) => parse_ext_header(source@) == Err::<Seq<PMDConfig>, Seq<char>>(e@),
            },
    {
        let chars = chars_of(source);
        if count_crlf(chars.as_slice()) >= 2 {
            return Err(String::from_str("should not contain multi line"));
        }
        let ext = chars_of("permessage-deflate");
        let parts = split(chars.as_slice(), ',');
        let ghost all = split_on(chars@, ',');
        assert(parts@.map_values(|p: Vec<char>| p@) =~= all);
        let mut configs: Vec<PMDConfig> = Vec::new();
        let mut i: usize = 0;
        assert(all.skip(0) =~= all);
        assert(configs@ + Seq::<PMDConfig>::empty() =~= Seq::<PMDConfig>::empty());
        while i < parts.len()
            invariant
                i <= parts@.len() == all.len(),
                forall|k: int| 0 <= k < parts@.len() ==> #[trigger] parts@[k]@ == all[k],
                ext@ == ext_id(),
                all == split_on(source@, ','),
                crlf_count(source@) < 2,
                parse_parts(all) == prepend_configs(configs@, parse_parts(all.skip(i as int))),
            decreases parts@.len() - i,
        {
            let part = &parts[i];
            assert(all.skip(i as int)[0] == part@);
            assert(all.skip(i as int).drop_first() =~= all.skip(i + 1));
            let head = trim_start(part.as_slice());
            let lower = lower_chars(head.as_slice());
            if starts_with(lower.as_slice(), ext.as_slice()) {
                let params = split(part.as_slice(), ';');
                let ghost ps = split_on(part@, ';');
                proof {
                    lemma_split_on_nonempty(part@, ';');
                }
                let mut conf = PMDConfig::default();
                let mut seen: Seen = (false, false, false, false);
                let mut j: usize = 1;
                assert(ps.skip(1) =~= ps.drop_first());
                while j < params.len()
                    invariant
                        1 <= j <= params@.len() == ps.len(),
                        forall|k: int| 0 <= k < params@.len() ==> #[trigger] params@[k]@ == ps[k],
                        parse_params(pmd_default(), (false, false, false, false), ps.drop_first())
                            == parse_params(conf, seen, ps.skip(j as int)),
                        ps == split_on(part@, ';'),
                        crlf_count(source@) < 2,
                        all == split_on(source@, ','),
                        i < all.len(),
                        all.skip(i as int)[0] == part@,
                        starts_with_s(lower_s(trim_start_s(part@)), ext_id()),
                        parse_parts(all) == prepend_configs(configs@, parse_parts(all.skip(i as int))),
                    decreases params@.len() - j,
                {
                    assert(ps.skip(j as int)[0] == params@[j as int]@);
                    assert(ps.skip(j as int).drop_first() =~= ps.skip(j + 1));
                    match parse_one_param(conf, seen, params[j].as_slice()) {
                        Ok((c, s)) => {
                            conf = c;
                            seen = s;
                        },
                        Err(e) => {
                            return Err(e);
                        },
                    }
                    j += 1;
                }
                assert(ps.skip(j as int) =~= Seq::<Seq<char>>::empty());
                let ghost before = configs@;
                configs.push(conf);
                assert(before + (seq![conf] + Seq::<PMDConfig>::empty()) =~= configs@ + Seq::<PMDConfig>::empty());
                proof {
                    match parse_parts(all.skip(i + 1)) {
                        Ok(rest) => {
                            assert(before + (seq![conf] + rest) =~= configs@ + rest);
                        },
                        Err(_) => {},
                    }
                }
            }
            i += 1;
        }
        assert(all.skip(i as int) =~= Seq::<Seq<char>>::empty());
        assert(configs@ + Seq::<PMDConfig>::empty() =~= configs@);
        Ok(configs)
    }
}

/// bytes read as chars, one char per byte
pub open spec fn bytes_text(v: Seq<u8>) -> Seq<char> {
    v.map_values(|b: u8| b as char)
}

/// every byte is visible ASCII or a tab
pub open spec fn all_visible(v: Seq<u8>) -> bool {
    forall|i: int| 0 <= i < v.len() ==> visible_ascii(#[trigger] v[i])
}

/// the configs offered by the `sec-websocket-extensions` headers of a
/// request, in order, or the first parse failure; values that are not
/// visible ASCII are passed over
pub open spec fn ext_offers(hs: Seq<(String, Vec<u8>)>) -> Result<Seq<PMDConfig>, Seq<char>>
    decreases hs.len(),
{
    if hs.len() == 0 {
        Ok(Seq::empty())
    } else if lower_s(hs[0].0@) == "sec-websocket-extensions"@ && all_visible(hs[0].1@) {
        match parse_ext_header(bytes_text(hs[0].1@)) {
            Ok(c) => prepend_configs(c, ext_offers(hs.drop_first())),
            Err(e) => Err(e),
        }
    } else {
        ext_offers(hs.drop_first())
    }
}

fn visible_text(v: &[u8]) -> (r: Option<String>)
    ensures
        all_visible(v@) ==> (r matches Some(s) && s@ == bytes_text(v@)),
        !all_visible(v@) ==> r is None,
{
    let mut out: Vec<char> = Vec::new();
    let mut i: usize = 0;
    while i < v.len()
        invariant
            i <= v@.len(),
            forall|j: int| 0 <= j < i ==> visible_ascii(#[trigger] v@[j]),
            out@ == v@.take(i as int).map_values(|b: u8| b as char),
        decreases v@.len() - i,
    {
        let b = v[i];
        if !((32 <= b && b < 127) || b == 9) {
            assert(!visible_ascii(v@[i as int]));
            return None;
        }
        out.push(b as char);
        i += 1;
        assert(out@ =~= v@.take(i as int).map_values(|b: u8| b as char));
    }
    assert(v@.take(i as int) =~= v@);
    Some(string_of(out.as_slice()))
}

/// the configs offered by the `sec-websocket-extensions` headers, in order,
/// or the first parse failure
pub fn offered_configs(headers: &Vec<(String, Vec<u8>)>) -> (r: Result<Vec<PMDConfig>, String>)
    ensures
        match ext_offers(headers@) {
            Ok(cs) => r matches Ok(v) && v@ == cs,
            Err(e) => r matches Err(m) && m@ == e,
        },
{
    let ghost hs = headers@;
    let key = chars_of("sec-websocket-extensions");
    let mut configs: Vec<PMDConfig> = Vec::new();
    let mut i: usize = 0;
    assert(hs.skip(0) =~= hs);
    assert(configs@ + Seq::<PMDConfig>::empty() =~= Seq::<PMDConfig>::empty());
    while i < headers.len()
        invariant
            i <= headers@.len(),
            hs == headers@,
            key@ == "sec-websocket-extensions"@,
            ext_offers(hs) == prepend_configs(configs@, ext_offers(hs.skip(i as int))),
        decreases headers@.len() - i,
    {
        assert(hs.skip(i as int)[0] == hs[i as int]);
        assert(hs.skip(i as int).drop_first() =~= hs.skip(i + 1));
        let n = chars_of(headers[i].0.as_str());
        let l = lower_chars(n.as_slice());
        if chars_eq(l.as_slice(), key.as_slice()) {
            match visible_text(headers[i].1.as_slice()) {
                Some(s) => {
                    match PMDConfig::parse_str(s.as_str()) {
                        Ok(mut conf) => {
                            let ghost before = configs@;
                            let ghost got = conf@;
                            configs.append(&mut conf);
                            proof {
                                match ext_offers(hs.skip(i + 1)) {
                                    Ok(rest) => {
                                        assert(before + (got + rest) =~= configs@ + rest);
                                    },
                                    Err(_) => {},
                                }
                            }
                        },
                        Err(e) => {
                            assert(ext_offers(hs.skip(i as int)) == Err::<Seq<PMDConfig>, Seq<char>>(e@));
                            assert(ext_offers(hs) == Err::<Seq<PMDConfig>, Seq<char>>(e@));
                            return Err(e);
                        },
                    }
                },
                None => {},
            }
        }
        i += 1;
    }
    assert(hs.skip(i as int) =~= Seq::<(String, Vec<u8>)>::empty());
    assert(configs@ + Seq::<PMDConfig>::empty() =~= configs@);
    Ok(configs)
}

/// the smaller of two window bits
pub open spec fn window_min(a: WindowBit, b: WindowBit) -> WindowBit {
    if window_bits(a) <= window_bits(b) {
        a
    } else {
        b
    }
}

/// the config picked from the `sec-websocket-extensions` headers: the last
/// config they hold with both window bits set to the smaller of the two,
/// `None` when they hold none, or the parse failure
pub open spec fn picked_pmd(headers: Seq<(String, Vec<u8>)>) -> Result<Option<PMDConfig>, Seq<char>> {
    match ext_offers(headers) {
        Err(e) => Err(e),
        Ok(cs) => if cs.len() == 0 {
            Ok(None)
        } else {
            let c = cs.last();
            let w = window_min(c.client_max_window_bits, c.server_max_window_bits);
            Ok(Some(PMDConfig { client_max_window_bits: w, server_max_window_bits: w, ..c }))
        },
    }
}

/// The config picked from the extension headers is the last one they
/// offer, as parsed, with one change: both window bits become the smaller
/// of its two. Both no_context_takeover flags are kept; nothing offered
/// picks nothing, and a parse failure is passed on.
pub proof fn lemma_picked_config(headers: Seq<(String, Vec<u8>)>)
    ensures
        match ext_offers(headers) {
            Err(e) => picked_pmd(headers) == Err::<Option<PMDConfig>, Seq<char>>(e),
            Ok(cs) => if cs.len() == 0 {
                picked_pmd(headers) == Ok::<Option<PMDConfig>, Seq<char>>(None)
            } else {
                picked_pmd(headers) matches Ok(Some(c)) && {
                    let last = cs.last();
                    let lo = if window_bits(last.client_max_window_bits) <= window_bits(last.server_max_window_bits) {
                        window_bits(last.client_max_window_bits)
                    } else {
                        window_bits(last.server_max_window_bits)
                    };
                    &&& c.server_no_context_takeover == last.server_no_context_takeover
                    &&& c.client_no_context_takeover == last.client_no_context_takeover
                    &&& window_bits(c.client_max_window_bits) == lo
                    &&& window_bits(c.server_max_window_bits) == lo
                }
            },
        },
{
}

/// the config a server uses for a request (see `picked_pmd`); a parse
/// failure is a handshake failure
pub fn server_pmd_config(headers: &Vec<(String, Vec<u8>)>) -> (r: Result<Option<PMDConfig>, WsError>)
    ensures
        match picked_pmd(headers@) {
            Err(e) => r matches Err(WsError::HandShakeFailed(m)) && m@ == e,
            Ok(c) => r == Ok::<Option<PMDConfig>, WsError>(c),
        },
{
    let configs = match offered_configs(headers) {
        Ok(cs) => cs,
        Err(e) => {
            return Err(WsError::HandShakeFailed(e));
        },
    };
    let n = configs.len();
    if n == 0 {
        return Ok(None);
    }
    let c = configs[n - 1];
    let w = if c.client_max_window_bits.as_u8() <= c.server_max_window_bits.as_u8() {
        c.client_max_window_bits
    } else {
        c.server_max_window_bits
    };
    Ok(Some(PMDConfig { client_max_window_bits: w, server_max_window_bits: w, ..c }))
}

/// the config a client uses after its handshake: the response must pass
/// `standard_handshake_resp_check` for the key, then the config is picked
/// from the response's headers (see `picked_pmd`)
pub fn client_pmd_config(key: &[u8], resp: &HttpResponse) -> (r: Result<Option<PMDConfig>, WsError>)
    ensures
        match resp_check_error(key@, resp.status, resp.headers@) {
            Some(m) => r matches Err(WsError::HandShakeFailed(e)) && e@ == m,
            None => match picked_pmd(resp.headers@) {
                Err(e) => r matches Err(WsError::HandShakeFailed(m)) && m@ == e,
                Ok(c) => r == Ok::<Option<PMDConfig>, WsError>(c),
            },
        },
{
    match standard_handshake_resp_check(key, resp) {
        Ok(_) => {},
        Err(e) => {
            return Err(e);
        },
    }
    server_pmd_config(&resp.headers)
}

/// permessage-deflate req handler: the default answer, with the last
/// offered config accepted in a `sec-websocket-extensions` header
pub fn deflate_handshake_handler(req: HttpRequest) -> (r: Result<(HttpRequest, HandshakeResponse), WsError>)
    ensures
        match ext_offers(req.headers@) {
            Err(e) => r matches Err(WsError::HandShakeFailed(m)) && m@ == e,
            Ok(cs) => r matches Ok((req2, resp)) && req2 == req && resp.status == default_status(req.headers@)
                && resp.body@ == default_body(req.headers@) && pair_views(resp.headers@) == default_headers(
                req.headers@,
            ) + if cs.len() > 0 {
                seq![
                    ("sec-websocket-extensions"@, ext_text(
                        cs.last().server_no_context_takeover,
                        cs.last().client_no_context_takeover,
                        cs.last().server_max_window_bits,
                        cs.last().client_max_window_bits,
                    )),
                ]
            } else {
                Seq::empty()
            },
        },
{
    let ghost orig = req.headers@;
    let (request, mut resp) = match default_handshake_handler(req) {
        Ok(v) => v,
        Err(e) => {
            return Err(e);
        },
    };
    let ghost hs = request.headers@;
    let ghost h0 = pair_views(resp.headers@);
    let configs = match offered_configs(&request.headers) {
        Ok(cs) => cs,
        Err(e) => {
            return Err(WsError::HandShakeFailed(e));
        },
    };
    let n = configs.len();
    if n > 0 {
        let config = configs[n - 1];
        let text = config.ext_string();
        resp.headers.push((String::from_str("sec-websocket-extensions"), text));
    }
    proof {
        if n > 0 {
            assert(pair_views(resp.headers@) =~= h0 + seq![
                ("sec-websocket-extensions"@, ext_text(
                    configs@.last().server_no_context_takeover,
                    configs@.last().client_no_context_takeover,
                    configs@.last().server_max_window_bits,
                    configs@.last().client_max_window_bits,
                )),
            ]);
        } else {
            assert(pair_views(resp.headers@) =~= h0 + Seq::<(Seq<char>, Seq<char>)>::empty());
        }
    }
    Ok((request, resp))
}

// ---------------------------------------------------------------------------
// Reading back the extension text.
// ---------------------------------------------------------------------------

/// chars that occur in the extension text: lowercase ASCII letters, digits,
/// '-', '_' and '='
pub open spec fn plain_char(c: char) -> bool {
    ('a' <= c <= 'z') || ('0' <= c <= '9') || c == '-' || c == '_' || c == '='
}

/// every char is a plain char
pub open spec fn plain_text(s: Seq<char>) -> bool {
    forall|i: int| 0 <= i < s.len() ==> plain_char(#[trigger] s[i])
}

proof fn lemma_plain_facts(s: Seq<char>)
    requires
        plain_text(s),
    ensures
        lacks(s, ';'),
        lacks(s, ','),
        lacks(s, '\r'),
        lacks(s, ' '),
        forall|i: int| 0 <= i < s.len() ==> (s[i] as u32) < 128 && !('A' <= #[trigger] s[i] <= 'Z'),
        forall|i: int| 0 <= i < s.len() ==> !is_ws(#[trigger] s[i]),
{
}

proof fn lemma_plain_concat(a: Seq<char>, b: Seq<char>)
    requires
        plain_text(a),
        plain_text(b),
    ensures
        plain_text(a + b),
{
    assert forall|i: int| 0 <= i < (a + b).len() implies plain_char(#[trigger] (a + b)[i]) by {
        if i >= a.len() {
            assert((a + b)[i] == b[i - a.len()]);
        }
    }
}

/// the literal texts the extension text is made of
proof fn lemma_literals()
    ensures
        ext_id().len() == 18 && plain_text(ext_id()),
        client_nct_key().len() == 26 && plain_text(client_nct_key()),
        server_nct_key().len() == 26 && plain_text(server_nct_key()),
        client_mwb_key().len() == 22 && plain_text(client_mwb_key()),
        server_mwb_key().len() == 22 && plain_text(server_mwb_key()),
        client_nct_key()[0] == 'c' && client_mwb_key()[0] == 'c',
        server_nct_key()[0] == 's' && server_mwb_key()[0] == 's',
        "permessage-deflate;"@ == ext_id() + seq![';'],
        "client_no_context_takeover; "@ == client_nct_key() + seq![';', ' '],
        "server_no_context_takeover; "@ == server_nct_key() + seq![';', ' '],
        "client_max_window_bits="@ == client_mwb_key() + seq!['='],
        "server_max_window_bits="@ == server_mwb_key() + seq!['='],
        ";"@ == seq![';'],
{
    reveal_strlit("permessage-deflate");
    reveal_strlit("permessage-deflate;");
    reveal_strlit("client_no_context_takeover");
    reveal_strlit("client_no_context_takeover; ");
    reveal_strlit("server_no_context_takeover");
    reveal_strlit("server_no_context_takeover; ");
    reveal_strlit("client_max_window_bits");
    reveal_strlit("client_max_window_bits=");
    reveal_strlit("server_max_window_bits");
    reveal_strlit("server_max_window_bits=");
    reveal_strlit(";");
    assert("permessage-deflate;"@ =~= ext_id() + seq![';']);
    assert("client_no_context_takeover; "@ =~= client_nct_key() + seq![';', ' ']);
    assert("server_no_context_takeover; "@ =~= server_nct_key() + seq![';', ' ']);
    assert("client_max_window_bits="@ =~= client_mwb_key() + seq!['=']);
    assert("server_max_window_bits="@ =~= server_mwb_key() + seq!['=']);
    assert(";"@ =~= seq![';']);
}

/// the value part of a window bits parameter: '=' and the digits
pub open spec fn bits_value(w: WindowBit) -> Seq<char> {
    seq!['='] + decimal(window_bits(w) as int)
}

proof fn lemma_bits_value(w: WindowBit)
    ensures
        plain_text(bits_value(w)),
        bits_value(w).len() <= 3,
        window_bits_param(client_mwb_key() + bits_value(w), client_mwb_key()) == Ok::<WindowBit, Seq<char>>(w),
        window_bits_param(server_mwb_key() + bits_value(w), server_mwb_key()) == Ok::<WindowBit, Seq<char>>(w),
{
    lemma_window_bit_roundtrip(w);
    let n = window_bits(w) as int;
    let d = decimal(n);
    lemma_small_decimal(n);
    lemma_literals();
    let v = bits_value(w);
    assert(plain_text(v)) by {
        assert forall|i: int| 0 <= i < v.len() implies plain_char(#[trigger] v[i]) by {
            if i > 0 {
                assert(v[i] == d[i - 1]);
                assert(is_digit(d[i - 1]));
            }
        }
    }
    assert(d.len() <= 2) by {
        reveal_with_fuel(decimal, 3);
    }
    assert(v[0] == '=');
    assert(!is_ws('='));
    assert(trim_start_s(v) == v);
    assert(starts_with_s(v, seq!['='])) by {
        assert(v.take(1) =~= seq!['=']);
    }
    lemma_trim_char_lead(d, '=');
    lemma_strip_once(client_mwb_key(), v);
    lemma_strip_once(server_mwb_key(), v);
}

proof fn lemma_param_client_nct(conf: PMDConfig, seen: Seen)
    requires
        !seen.1,
    ensures
        parse_param(conf, seen, client_nct_key()) == Ok::<(PMDConfig, Seen), Seq<char>>(
            (PMDConfig { client_no_context_takeover: true, ..conf }, (seen.0, true, seen.2, seen.3)),
        ),
{
    let k = client_nct_key();
    lemma_literals();
    lemma_plain_facts(k);
    lemma_trim_identity(k);
    lemma_lower_identity(k);
    assert(!starts_with_s(k, server_nct_key())) by {
        assert(k.take(26)[0] != server_nct_key()[0]);
    }
    assert(starts_with_s(k, k)) by {
        assert(k.take(26) =~= k);
    }
}

proof fn lemma_param_server_nct(conf: PMDConfig, seen: Seen, lead: Seq<char>)
    requires
        !seen.0,
        lead == Seq::<char>::empty() || lead == seq![' '],
    ensures
        parse_param(conf, seen, lead + server_nct_key()) == Ok::<(PMDConfig, Seen), Seq<char>>(
            (PMDConfig { server_no_context_takeover: true, ..conf }, (true, seen.1, seen.2, seen.3)),
        ),
{
    let k = server_nct_key();
    lemma_literals();
    lemma_plain_facts(k);
    lemma_trim_identity(k);
    lemma_lower_identity(k);
    if lead.len() == 1 {
        lemma_trim_space(k);
        assert(lead + k =~= seq![' '] + k);
        assert((lead + k).last() == k.last());
    } else {
        assert(lead + k =~= k);
    }
    assert(trim_s(lead + k) == k);
    assert(starts_with_s(k, k)) by {
        assert(k.take(26) =~= k);
    }
}

proof fn lemma_param_client_mwb(conf: PMDConfig, seen: Seen, lead: Seq<char>, w: WindowBit)
    requires
        !seen.3,
        lead == Seq::<char>::empty() || lead == seq![' '],
    ensures
        parse_param(conf, seen, lead + client_mwb_key() + bits_value(w)) == Ok::<(PMDConfig, Seen), Seq<char>>(
            (PMDConfig { client_max_window_bits: w, ..conf }, (seen.0, seen.1, seen.2, true)),
        ),
{
    let k = client_mwb_key();
    let t = k + bits_value(w);
    lemma_literals();
    lemma_bits_value(w);
    lemma_plain_concat(k, bits_value(w));
    lemma_plain_facts(t);
    assert(t[0] == k[0]);
    lemma_trim_identity(t);
    lemma_lower_identity(t);
    if lead.len() == 1 {
        lemma_trim_space(t);
        assert(lead + k + bits_value(w) =~= seq![' '] + t);
        assert((seq![' '] + t).last() == t.last());
    } else {
        assert(lead + k + bits_value(w) =~= t);
    }
    assert(trim_s(lead + k + bits_value(w)) == t);
    assert(t.len() <= 25);
    assert(!starts_with_s(t, server_nct_key()));
    assert(!starts_with_s(t, server_mwb_key())) by {
        assert(t.take(22)[0] != server_mwb_key()[0]);
    }
    assert(starts_with_s(t, k)) by {
        assert(t.take(22) =~= k);
    }
    assert(t != k);
}

proof fn lemma_param_server_mwb(conf: PMDConfig, seen: Seen, w: WindowBit)
    requires
        !seen.2,
    ensures
        parse_param(conf, seen, server_mwb_key() + bits_value(w)) == Ok::<(PMDConfig, Seen), Seq<char>>(
            (PMDConfig { server_max_window_bits: w, ..conf }, (seen.0, seen.1, true, seen.3)),
        ),
{
    let k = server_mwb_key();
    let t = k + bits_value(w);
    lemma_literals();
    lemma_bits_value(w);
    lemma_plain_concat(k, bits_value(w));
    lemma_plain_facts(t);
    assert(t[0] == k[0]);
    lemma_trim_identity(t);
    lemma_lower_identity(t);
    assert(t.len() <= 25);
    assert(!starts_with_s(t, client_nct_key()));
    assert(starts_with_s(t, k)) by {
        assert(t.take(22) =~= k);
    }
    assert(t != k);
}

/// chars of the extension text: plain chars, ';' and ' '
pub open spec fn text_char(c: char) -> bool {
    plain_char(c) || c == ';' || c == ' '
}

/// every char is a char of the extension text
pub open spec fn ext_chars(s: Seq<char>) -> bool {
    forall|i: int| 0 <= i < s.len() ==> text_char(#[trigger] s[i])
}

proof fn lemma_ext_chars_concat(a: Seq<char>, b: Seq<char>)
    requires
        ext_chars(a),
        ext_chars(b),
    ensures
        ext_chars(a + b),
{
    assert forall|i: int| 0 <= i < (a + b).len() implies text_char(#[trigger] (a + b)[i]) by {
        if i >= a.len() {
            assert((a + b)[i] == b[i - a.len()]);
        }
    }
}

/// the extension text of a config
pub open spec fn pmd_text(c: PMDConfig) -> Seq<char> {
    ext_text(c.server_no_context_takeover, c.client_no_context_takeover, c.server_max_window_bits, c.client_max_window_bits)
}

/// the parameters of a config's extension text, as split at ';'
pub open spec fn text_params(c: PMDConfig) -> Seq<Seq<char>> {
    let sp = seq![' '];
    let lead = if c.client_no_context_takeover || c.server_no_context_takeover {
        sp
    } else {
        Seq::<char>::empty()
    };
    let p_cm = lead + client_mwb_key() + bits_value(c.client_max_window_bits);
    let p_sm = server_mwb_key() + bits_value(c.server_max_window_bits);
    if c.client_no_context_takeover && c.server_no_context_takeover {
        seq![client_nct_key(), sp + server_nct_key(), p_cm, p_sm]
    } else if c.client_no_context_takeover {
        seq![client_nct_key(), p_cm, p_sm]
    } else if c.server_no_context_takeover {
        seq![server_nct_key(), p_cm, p_sm]
    } else {
        seq![p_cm, p_sm]
    }
}

#[verifier::rlimit(40)]
proof fn lemma_text_split(c: PMDConfig)
    ensures
        split_on(pmd_text(c), ';') == seq![ext_id()] + text_params(c),
{
    lemma_literals();
    let e = ext_id();
    let cn = client_nct_key();
    let sn = server_nct_key();
    let cm = client_mwb_key();
    let sm = server_mwb_key();
    let vc = bits_value(c.client_max_window_bits);
    let vs = bits_value(c.server_max_window_bits);
    lemma_bits_value(c.client_max_window_bits);
    lemma_bits_value(c.server_max_window_bits);
    let p_sm = sm + vs;
    lemma_plain_concat(sm, vs);
    lemma_plain_facts(p_sm);
    lemma_plain_concat(cm, vc);
    lemma_plain_facts(cm + vc);
    lemma_plain_facts(e);
    lemma_plain_facts(cn);
    lemma_plain_facts(sn);
    let sp = seq![' '];
    let lead = if c.client_no_context_takeover || c.server_no_context_takeover {
        sp
    } else {
        Seq::<char>::empty()
    };
    let p_cm = lead + cm + vc;
    assert(lacks(p_cm, ';'));
    assert(decimal(window_bits(c.client_max_window_bits) as int) == vc.drop_first());
    let text = pmd_text(c);
    let tail = p_cm + seq![';'] + p_sm;
    lemma_split_without_sep(p_sm, ';');
    lemma_split_first(p_cm, p_sm, ';');
    assert(split_on(tail, ';') == seq![p_cm, p_sm]);
    assert(lacks(sp + sn, ';'));
    if c.client_no_context_takeover && c.server_no_context_takeover {
        assert(text =~= e + seq![';'] + (cn + seq![';'] + ((sp + sn) + seq![';'] + tail)));
        lemma_split_first(sp + sn, tail, ';');
        lemma_split_first(cn, (sp + sn) + seq![';'] + tail, ';');
        lemma_split_first(e, cn + seq![';'] + ((sp + sn) + seq![';'] + tail), ';');
    } else if c.client_no_context_takeover {
        assert(text =~= e + seq![';'] + (cn + seq![';'] + tail));
        lemma_split_first(cn, tail, ';');
        lemma_split_first(e, cn + seq![';'] + tail, ';');
    } else if c.server_no_context_takeover {
        assert(text =~= e + seq![';'] + (sn + seq![';'] + tail));
        lemma_split_first(sn, tail, ';');
        lemma_split_first(e, sn + seq![';'] + tail, ';');
    } else {
        assert(text =~= e + seq![';'] + tail);
        lemma_split_first(e, tail, ';');
    }
    assert(split_on(text, ';') =~= seq![e] + text_params(c));
}

#[verifier::rlimit(40)]
proof fn lemma_text_params(c: PMDConfig)
    ensures
        parse_params(pmd_default(), (false, false, false, false), text_params(c)) == Ok::<PMDConfig, Seq<char>>(c),
{
    let sp = seq![' '];
    let lead = if c.client_no_context_takeover || c.server_no_context_takeover {
        sp
    } else {
        Seq::<char>::empty()
    };
    let p_cm = lead + client_mwb_key() + bits_value(c.client_max_window_bits);
    let p_sm = server_mwb_key() + bits_value(c.server_max_window_bits);
    let params = text_params(c);
    let init: Seen = (false, false, false, false);
    let d = pmd_default();
    reveal_with_fuel(parse_params, 5);
    if c.client_no_context_takeover && c.server_no_context_takeover {
        lemma_param_client_nct(d, init);
        let c1 = PMDConfig { client_no_context_takeover: true, ..d };
        let s1: Seen = (false, true, false, false);
        lemma_param_server_nct(c1, s1, sp);
        let c2 = PMDConfig { server_no_context_takeover: true, ..c1 };
        let s2: Seen = (true, true, false, false);
        lemma_param_client_mwb(c2, s2, lead, c.client_max_window_bits);
        let c3 = PMDConfig { client_max_window_bits: c.client_max_window_bits, ..c2 };
        let s3: Seen = (true, true, false, true);
        lemma_param_server_mwb(c3, s3, c.server_max_window_bits);
        assert(params.drop_first() =~= seq![sp + server_nct_key(), p_cm, p_sm]);
        assert(params.drop_first().drop_first() =~= seq![p_cm, p_sm]);
        assert(params.drop_first().drop_first().drop_first() =~= seq![p_sm]);
        assert(params.drop_first().drop_first().drop_first().drop_first() =~= Seq::<Seq<char>>::empty());
    } else if c.client_no_context_takeover {
        lemma_param_client_nct(d, init);
        let c1 = PMDConfig { client_no_context_takeover: true, ..d };
        let s1: Seen = (false, true, false, false);
        lemma_param_client_mwb(c1, s1, lead, c.client_max_window_bits);
        let c3 = PMDConfig { client_max_window_bits: c.client_max_window_bits, ..c1 };
        let s3: Seen = (false, true, false, true);
        lemma_param_server_mwb(c3, s3, c.server_max_window_bits);
        assert(params.drop_first() =~= seq![p_cm, p_sm]);
        assert(params.drop_first().drop_first() =~= seq![p_sm]);
        assert(params.drop_first().drop_first().drop_first() =~= Seq::<Seq<char>>::empty());
    } else if c.server_no_context_takeover {
        assert(server_nct_key() =~= Seq::<char>::empty() + server_nct_key());
        lemma_param_server_nct(d, init, Seq::<char>::empty());
        let c1 = PMDConfig { server_no_context_takeover: true, ..d };
        let s1: Seen = (true, false, false, false);
        lemma_param_client_mwb(c1, s1, lead, c.client_max_window_bits);
        let c3 = PMDConfig { client_max_window_bits: c.client_max_window_bits, ..c1 };
        let s3: Seen = (true, false, false, true);
        lemma_param_server_mwb(c3, s3, c.server_max_window_bits);
        assert(params.drop_first() =~= seq![p_cm, p_sm]);
        assert(params.drop_first().drop_first() =~= seq![p_sm]);
        assert(params.drop_first().drop_first().drop_first() =~= Seq::<Seq<char>>::empty());
    } else {
        lemma_param_client_mwb(d, init, lead, c.client_max_window_bits);
        let c3 = PMDConfig { client_max_window_bits: c.client_max_window_bits, ..d };
        let s3: Seen = (false, false, false, true);
        lemma_param_server_mwb(c3, s3, c.server_max_window_bits);
        assert(params.drop_first() =~= seq![p_sm]);
        assert(params.drop_first().drop_first() =~= Seq::<Seq<char>>::empty());
    }
}

#[verifier::rlimit(40)]
proof fn lemma_text_chars(c: PMDConfig)
    ensures
        ext_chars(pmd_text(c)),
        starts_with_s(pmd_text(c), ext_id()),
{
    lemma_literals();
    let e = ext_id();
    let cn = client_nct_key();
    let sn = server_nct_key();
    let cm = client_mwb_key();
    let sm = server_mwb_key();
    let vc = bits_value(c.client_max_window_bits);
    let vs = bits_value(c.server_max_window_bits);
    lemma_bits_value(c.client_max_window_bits);
    lemma_bits_value(c.server_max_window_bits);
    lemma_plain_concat(sm, vs);
    lemma_plain_concat(cm, vc);
    assert(decimal(window_bits(c.client_max_window_bits) as int) == vc.drop_first());
    let text = pmd_text(c);
    let a_part = if c.client_no_context_takeover {
        cn + seq![';', ' ']
    } else {
        Seq::<char>::empty()
    };
    let b_part = if c.server_no_context_takeover {
        sn + seq![';', ' ']
    } else {
        Seq::<char>::empty()
    };
    let head = e + seq![';'];
    assert(text =~= head + a_part + b_part + (cm + vc) + seq![';'] + (sm + vs));
    lemma_plain_ext(e);
    lemma_plain_ext(cn);
    lemma_plain_ext(sn);
    lemma_plain_ext(cm + vc);
    lemma_plain_ext(sm + vs);
    assert(ext_chars(seq![';']));
    assert(ext_chars(seq![';', ' ']));
    lemma_ext_chars_concat(e, seq![';']);
    lemma_ext_chars_concat(cn, seq![';', ' ']);
    lemma_ext_chars_concat(sn, seq![';', ' ']);
    assert(ext_chars(a_part));
    assert(ext_chars(b_part));
    lemma_ext_chars_concat(head, a_part);
    lemma_ext_chars_concat(head + a_part, b_part);
    lemma_ext_chars_concat(head + a_part + b_part, cm + vc);
    lemma_ext_chars_concat(head + a_part + b_part + (cm + vc), seq![';']);
    lemma_ext_chars_concat(head + a_part + b_part + (cm + vc) + seq![';'], sm + vs);
    assert(text.take(18) =~= e);
}

/// Reading back the extension text of a config gives that config alone:
/// `PMDConfig::parse_str` of `PMDConfig::ext_string` is the config.
pub proof fn lemma_ext_text_parses_back(c: PMDConfig)
    ensures
        parse_ext_header(pmd_text(c)) == Ok::<Seq<PMDConfig>, Seq<char>>(seq![c]),
{
    let text = pmd_text(c);
    lemma_text_chars(c);
    lemma_text_split(c);
    lemma_text_params(c);
    lemma_literals();
    assert(lacks(text, '\r'));
    assert(lacks(text, ','));
    lemma_crlf_none(text);
    lemma_split_without_sep(text, ',');
    assert(!is_ws(text[0]));
    assert(trim_start_s(text) == text);
    lemma_lower_identity(text);
    assert((seq![ext_id()] + text_params(c)).drop_first() =~= text_params(c));
    assert(seq![text].drop_first() =~= Seq::<Seq<char>>::empty());
    assert(parse_parts(Seq::<Seq<char>>::empty()) == Ok::<Seq<PMDConfig>, Seq<char>>(Seq::empty()));
    assert(seq![c] + Seq::<PMDConfig>::empty() =~= seq![c]);
}

proof fn lemma_plain_ext(s: Seq<char>)
    requires
        plain_text(s),
    ensures
        ext_chars(s),
{
}

/// the extension text after the extension's name and its ';'
pub open spec fn text_rest(c: PMDConfig) -> Seq<char> {
    pmd_text(c).skip(19)
}

proof fn lemma_text_rest(c: PMDConfig)
    ensures
        pmd_text(c) == ext_id() + seq![';'] + text_rest(c),
        split_on(text_rest(c), ';') == text_params(c),
        ext_chars(pmd_text(c)),
{
    lemma_literals();
    lemma_text_chars(c);
    lemma_text_split(c);
    let t = pmd_text(c);
    assert(t.take(18) =~= ext_id());
    assert(t[18] == ';') by {
        assert(t =~= "permessage-deflate;"@ + t.skip(19));
        assert(t[18] == "permessage-deflate;"@[18]);
    }
    assert(t =~= ext_id() + seq![';'] + text_rest(c));
    lemma_plain_facts(ext_id());
    lemma_split_first(ext_id(), text_rest(c), ';');
    assert(split_on(t, ';') == seq![ext_id()] + split_on(text_rest(c), ';'));
    assert(split_on(text_rest(c), ';') =~= (seq![ext_id()] + text_params(c)).drop_first());
}

/// A part that is a config's extension text, maybe after a space, parses as
/// that config.
proof fn lemma_part_parses(c: PMDConfig, lead: Seq<char>)
    requires
        lead == Seq::<char>::empty() || lead == seq![' '],
    ensures
        starts_with_s(lower_s(trim_start_s(lead + pmd_text(c))), ext_id()),
        parse_params(pmd_default(), (false, false, false, false), split_on(lead + pmd_text(c), ';').drop_first())
            == Ok::<PMDConfig, Seq<char>>(c),
{
    let t = pmd_text(c);
    lemma_text_rest(c);
    lemma_text_params(c);
    lemma_literals();
    lemma_plain_facts(ext_id());
    assert(!is_ws(t[0])) by {
        assert(t[0] == ext_id()[0]);
    }
    assert(trim_start_s(t) == t);
    if lead.len() == 1 {
        lemma_trim_space(t);
        assert(lead + t =~= seq![' '] + t);
    } else {
        assert(lead + t =~= t);
    }
    assert(trim_start_s(lead + t) == t);
    lemma_lower_identity(t);
    assert(t.take(18) =~= ext_id());
    let le = lead + ext_id();
    assert(lacks(le, ';'));
    assert(lead + t =~= le + seq![';'] + text_rest(c));
    lemma_split_first(le, text_rest(c), ';');
    assert((seq![le] + text_params(c)).drop_first() =~= text_params(c));
}

/// the extension texts of configs
pub open spec fn texts_of(cs: Seq<PMDConfig>) -> Seq<Seq<char>> {
    cs.map_values(|c: PMDConfig| pmd_text(c))
}

/// the comma-separated parts of texts joined with ", ", the first after `lead`
pub open spec fn joined_parts(texts: Seq<Seq<char>>, lead: Seq<char>) -> Seq<Seq<char>>
    decreases texts.len(),
{
    if texts.len() <= 1 {
        seq![lead + join_with(texts, ", "@)]
    } else {
        seq![lead + texts[0]] + joined_parts(texts.drop_first(), seq![' '])
    }
}

proof fn lemma_join_split(texts: Seq<Seq<char>>, lead: Seq<char>)
    requires
        forall|i: int| 0 <= i < texts.len() ==> lacks(#[trigger] texts[i], ','),
        lacks(lead, ','),
    ensures
        split_on(lead + join_with(texts, ", "@), ',') == joined_parts(texts, lead),
    decreases texts.len(),
{
    reveal_strlit(", ");
    if texts.len() <= 1 {
        let t = lead + join_with(texts, ", "@);
        if texts.len() == 1 {
            assert(join_with(texts, ", "@) == texts[0]);
        } else {
            assert(join_with(texts, ", "@) == Seq::<char>::empty());
        }
        assert(lacks(t, ','));
        lemma_split_without_sep(t, ',');
    } else {
        let rest = texts.drop_first();
        assert forall|i: int| 0 <= i < rest.len() implies lacks(#[trigger] rest[i], ',') by {
            assert(rest[i] == texts[i + 1]);
        }
        lemma_join_split(rest, seq![' ']);
        let x = lead + texts[0];
        assert(lacks(x, ','));
        assert(lead + join_with(texts, ", "@) =~= x + seq![','] + (seq![' '] + join_with(rest, ", "@)));
        lemma_split_first(x, seq![' '] + join_with(rest, ", "@), ',');
    }
}

/// The parts of joined extension texts parse as their configs, in order.
proof fn lemma_joined_parse(cs: Seq<PMDConfig>, lead: Seq<char>)
    requires
        lead == Seq::<char>::empty() || lead == seq![' '],
    ensures
        parse_parts(joined_parts(texts_of(cs), lead)) == Ok::<
            Seq<PMDConfig>,
            Seq<char>,
        >(cs),
    decreases cs.len(),
{
    let ts = texts_of(cs);
    reveal_strlit(", ");
    if cs.len() == 0 {
        assert(join_with(ts, ", "@) == Seq::<char>::empty());
        assert(joined_parts(ts, lead) =~= seq![lead]);
        assert(lead + Seq::<char>::empty() =~= lead);
        lemma_literals();
        if lead.len() == 1 {
            assert(trim_start_s(lead) == trim_start_s(Seq::<char>::empty())) by {
                lemma_trim_space(Seq::<char>::empty());
                assert(seq![' '] + Seq::<char>::empty() =~= lead);
            }
        }
        assert(trim_start_s(lead).len() == 0);
        lemma_lower_identity(trim_start_s(lead));
        assert(!starts_with_s(lower_s(trim_start_s(lead)), ext_id()));
        assert(seq![lead].drop_first() =~= Seq::<Seq<char>>::empty());
        assert(cs =~= Seq::<PMDConfig>::empty());
        assert(parse_parts(seq![lead]) == parse_parts(Seq::<Seq<char>>::empty()));
        assert(parse_parts(joined_parts(ts, lead)) == Ok::<Seq<PMDConfig>, Seq<char>>(cs));
    } else if cs.len() == 1 {
        assert(join_with(ts, ", "@) == ts[0]);
        assert(joined_parts(ts, lead) =~= seq![lead + pmd_text(cs[0])]);
        lemma_part_parses(cs[0], lead);
        assert(seq![lead + pmd_text(cs[0])].drop_first() =~= Seq::<Seq<char>>::empty());
        assert(seq![cs[0]] + Seq::<PMDConfig>::empty() =~= cs);
        assert(parse_parts(joined_parts(ts, lead)) == Ok::<Seq<PMDConfig>, Seq<char>>(cs));
    } else {
        let rest = cs.drop_first();
        lemma_joined_parse(rest, seq![' ']);
        assert(ts.drop_first() =~= texts_of(rest));
        lemma_part_parses(cs[0], lead);
        let parts = joined_parts(ts, lead);
        assert(parts[0] == lead + pmd_text(cs[0]));
        assert(parts.drop_first() == joined_parts(ts.drop_first(), seq![' ']));
        assert(seq![cs[0]] + rest =~= cs);
        assert(parse_parts(joined_parts(ts, lead)) == Ok::<Seq<PMDConfig>, Seq<char>>(cs));
    }
}

/// Reading back the joined extension texts of configs gives the configs,
/// in order: `PMDConfig::parse_str` of `PMDConfig::multi_ext_string` is
/// the list.
pub proof fn lemma_multi_ext_text_parses_back(cs: Seq<PMDConfig>)
    ensures
        parse_ext_header(join_with(texts_of(cs), ", "@)) == Ok::<
            Seq<PMDConfig>,
            Seq<char>,
        >(cs),
{
    let ts = texts_of(cs);
    assert forall|i: int| 0 <= i < ts.len() implies lacks(#[trigger] ts[i], ',') && lacks(ts[i], '\r') by {
        lemma_text_rest(cs[i]);
    }
    lemma_join_split(ts, Seq::<char>::empty());
    assert(Seq::<char>::empty() + join_with(ts, ", "@) =~= join_with(ts, ", "@));
    lemma_join_lacks(ts, '\r');
    lemma_crlf_none(join_with(ts, ", "@));
    lemma_joined_parse(cs, Seq::<char>::empty());
}

proof fn lemma_join_lacks(ts: Seq<Seq<char>>, c: char)
    requires
        forall|i: int| 0 <= i < ts.len() ==> lacks(#[trigger] ts[i], c),
        c != ',' && c != ' ',
    ensures
        lacks(join_with(ts, ", "@), c),
    decreases ts.len(),
{
    reveal_strlit(", ");
    if ts.len() > 1 {
        let rest = ts.drop_first();
        assert forall|i: int| 0 <= i < rest.len() implies lacks(#[trigger] rest[i], c) by {
            assert(rest[i] == ts[i + 1]);
        }
        lemma_join_lacks(rest, c);
        let j = join_with(ts, ", "@);
        assert(j == ts[0] + ", "@ + join_with(rest, ", "@));
        assert forall|i: int| 0 <= i < j.len() implies j[i] != c by {
            if i < ts[0].len() {
            } else if i < ts[0].len() + 2 {
            } else {
                assert(j[i] == join_with(rest, ", "@)[i - ts[0].len() - 2]);
            }
        }
    }
}

} // verus!
