use vstd::prelude::*;
use vstd::string::*;

use crate::control::MonitorConfig;
use crate::reading::ClockReading;

verus! {

/// Opening of the alert, up to the measured clock.
pub const ALERT_HEAD: &'static str = "\u{26a0}\u{fe0f} ALERTA NVIDIA OVERCLOCK\n\nClock detectado: ";

/// Between the measured clock and the target.
pub const ALERT_MID: &'static str = " MHz\nAlvo esperado: ";

/// After the target.
pub const ALERT_TAIL: &'static str = " MHz\n\nPerfil reaplicado automaticamente.";

pub open spec fn digit_char(d: int) -> char {
    if d == 0 {
        '0'
    } else if d == 1 {
        '1'
    } else if d == 2 {
        '2'
    } else if d == 3 {
        '3'
    } else if d == 4 {
        '4'
    } else if d == 5 {
        '5'
    } else if d == 6 {
        '6'
    } else if d == 7 {
        '7'
    } else if d == 8 {
        '8'
    } else {
        '9'
    }
}

/// Decimal digits of `n`, without leading zeros.
pub open spec fn nat_text(n: nat) -> Seq<char>
    decreases n,
{
    if n < 10 {
        seq![digit_char(n as int)]
    } else {
        nat_text(n / 10) + seq![digit_char((n % 10) as int)]
    }
}

/// The digits of `f` thousandths (0 < f < 1000) after the point, without
/// trailing zeros.
pub open spec fn frac_text(f: nat) -> Seq<char> {
    let d1 = f / 100;
    let d2 = (f / 10) % 10;
    let d3 = f % 10;
    if d3 != 0 {
        seq![digit_char(d1 as int), digit_char(d2 as int), digit_char(d3 as int)]
    } else if d2 != 0 {
        seq![digit_char(d1 as int), digit_char(d2 as int)]
    } else {
        seq![digit_char(d1 as int)]
    }
}

pub open spec fn abs(v: int) -> nat {
    if v < 0 {
        (-v) as nat
    } else {
        v as nat
    }
}

/// A clock given in kHz, written in MHz the shortest way: no fraction when
/// it is a whole number of MHz, else up to three fraction digits.
pub open spec fn mhz_text(khz: int) -> Seq<char> {
    let m = abs(khz);
    let sign = if khz < 0 {
        seq!['-']
    } else {
        Seq::<char>::empty()
    };
    let whole = nat_text(m / 1000);
    if m % 1000 == 0 {
        sign + whole
    } else {
        sign + whole + seq!['.'] + frac_text(m % 1000)
    }
}

/// The operator alert about a sample of `khz` against a target of `target_khz`.
pub open spec fn alert_message(khz: int, target_khz: int) -> Seq<char> {
    ALERT_HEAD@ + mhz_text(khz) + ALERT_MID@ + mhz_text(target_khz) + ALERT_TAIL@
}

fn push_digit(out: &mut String, d: u64)
    requires
        d < 10,
    ensures
        final(out)@ == old(out)@ + seq![digit_char(d as int)],
{
    let s: &str = if d == 0 {
        "0"
    } else if d == 1 {
        "1"
    } else if d == 2 {
        "2"
    } else if d == 3 {
        "3"
    } else if d == 4 {
        "4"
    } else if d == 5 {
        "5"
    } else if d == 6 {
        "6"
    } else if d == 7 {
        "7"
    } else if d == 8 {
        "8"
    } else {
        "9"
    };
    proof {
        reveal_strlit("0");
        reveal_strlit("1");
        reveal_strlit("2");
        reveal_strlit("3");
        reveal_strlit("4");
        reveal_strlit("5");
        reveal_strlit("6");
        reveal_strlit("7");
        reveal_strlit("8");
        reveal_strlit("9");
    }
    assert(s@ =~= seq![digit_char(d as int)]);
    out.append(s);
}

fn push_nat(out: &mut String, n: u64)
    ensures
        final(out)@ == old(out)@ + nat_text(n as nat),
    decreases n,
{
    if n >= 10 {
        push_nat(out, n / 10);
    }
    push_digit(out, n % 10);
    assert(out@ =~= old(out)@ + nat_text(n as nat));
}

/// Writes a clock given in kHz as MHz, see `mhz_text`.
pub fn write_mhz(out: &mut String, khz: i64)
    ensures
        final(out)@ == old(out)@ + mhz_text(khz as int),
{
    let m: u64 = if khz < 0 {
        (-(khz as i128)) as u64
    } else {
        khz as u64
    };
    assert(m == abs(khz as int));
    if khz < 0 {
        proof {
            reveal_strlit("-");
        }
        out.append("-");
    }
    push_nat(out, m / 1000);
    let f = m % 1000;
    if f != 0 {
        proof {
            reveal_strlit(".");
        }
        out.append(".");
        let d1 = f / 100;
        let d2 = (f / 10) % 10;
        let d3 = f % 10;
        push_digit(out, d1);
        if d2 != 0 || d3 != 0 {
            push_digit(out, d2);
        }
        if d3 != 0 {
            push_digit(out, d3);
        }
    }
    assert(out@ =~= old(out)@ + mhz_text(khz as int));
}

/// The operator alert text for a sample against a target.
pub fn alert_text(reading: ClockReading, target_khz: i64) -> (r: String)
    ensures
        r@ == alert_message(reading.khz as int, target_khz as int),
{
    let mut out = String::from_str(ALERT_HEAD);
    write_mhz(&mut out, reading.khz);
    out.append(ALERT_MID);
    write_mhz(&mut out, target_khz);
    out.append(ALERT_TAIL);
    assert(out@ =~= alert_message(reading.khz as int, target_khz as int));
    out
}

/// Start of the messaging endpoint, before the bot token.
pub const URL_HEAD: &'static str = "https://api.telegram.org/bot";

/// End of the messaging endpoint, after the bot token.
pub const URL_TAIL: &'static str = "/sendMessage";

/// JSON body up to the recipient id.
pub const BODY_HEAD: &'static str = "{\"chat_id\":";

/// JSON body between the recipient id and the text.
pub const BODY_MID: &'static str = ",\"parse_mode\":\"HTML\",\"text\":";

/// JSON body after the text.
pub const BODY_TAIL: &'static str = "}";

/// An HTTP POST of a JSON body to the messaging endpoint.
pub struct AlertRequest {
    pub url: String,
    pub body: String,
}

pub open spec fn request_url(token: Seq<char>) -> Seq<char> {
    URL_HEAD@ + token + URL_TAIL@
}

/// The JSON object `{chat_id, parse_mode: "HTML", text}`, keys in sorted
/// order, from the recipient id and the text already written as JSON strings.
pub open spec fn request_body(chat_json: Seq<char>, text_json: Seq<char>) -> Seq<char> {
    BODY_HEAD@ + chat_json + BODY_MID@ + text_json + BODY_TAIL@
}

#[verifier::external_type_specification]
#[verifier::external_body]
pub struct ExJsonError(serde_json::Error);

pub open spec fn hex_char(d: int) -> char {
    if d < 10 {
        digit_char(d)
    } else if d == 10 {
        'a'
    } else if d == 11 {
        'b'
    } else if d == 12 {
        'c'
    } else if d == 13 {
        'd'
    } else if d == 14 {
        'e'
    } else {
        'f'
    }
}

/// How one character is written inside a JSON string: quote and backslash
/// escaped, the usual short escapes for backspace, tab, line feed, form feed
/// and carriage return, other control characters as `\u00xx` in lower-case
/// hex, anything else as it is.
pub open spec fn json_escape_char(c: char) -> Seq<char> {
    if c == '"' {
        seq!['\\', '"']
    } else if c == '\\' {
        seq!['\\', '\\']
    } else if c == '\x08' {
        seq!['\\', 'b']
    } else if c == '\t' {
        seq!['\\', 't']
    } else if c == '\n' {
        seq!['\\', 'n']
    } else if c == '\x0c' {
        seq!['\\', 'f']
    } else if c == '\r' {
        seq!['\\', 'r']
    } else if (c as u32) < 0x20 {
        seq!['\\', 'u', '0', '0', hex_char((c as u32) as int / 16), hex_char((c as u32) as int % 16)]
    } else {
        seq![c]
    }
}

pub open spec fn json_escaped(s: Seq<char>) -> Seq<char>
    decreases s.len(),
{
    if s.len() == 0 {
        Seq::empty()
    } else {
        json_escaped(s.drop_last()) + json_escape_char(s.last())
    }
}

/// The JSON string literal that serde_json writes for `s`: the escaped
/// characters between double quotes.
pub open spec fn json_string_of(s: Seq<char>) -> Seq<char> {
    seq!['"'] + json_escaped(s) + seq!['"']
}

/// Relies on `serde_json::to_string` applied to a `str`: it writes the text,
/// quoted and escaped by serde_json's escape table (see `json_escape_char`),
/// into a `Vec<u8>`, which cannot fail.
#[verifier::external_body]
fn json_string(s: &str) -> (r: Result<String, serde_json::Error>)
    ensures
        r is Ok,
        r matches Ok(j) ==> j@ == json_string_of(s@),
{
    serde_json::to_string(s)
}

/// Builds the request from the bot token and from the recipient id and the
/// alert text, both already written as JSON strings.
pub fn request_from_parts(token: &str, chat_json: &str, text_json: &str) -> (r: AlertRequest)
    ensures
        r.url@ == request_url(token@),
        r.body@ == request_body(chat_json@, text_json@),
{
    let mut url = String::from_str(URL_HEAD);
    url.append(token);
    url.append(URL_TAIL);
    let mut body = String::from_str(BODY_HEAD);
    body.append(chat_json);
    body.append(BODY_MID);
    body.append(text_json);
    body.append(BODY_TAIL);
    assert(url@ =~= request_url(token@));
    assert(body@ =~= request_body(chat_json@, text_json@));
    AlertRequest { url, body }
}

/// The request that alerts the operator about `reading`, given the bot token
/// and recipient id from the environment. Either credential missing means
/// notifications are off: no request. When a request is made it carries the
/// alert text about `reading` and the configured target.
pub fn alert_request(
    config: &MonitorConfig,
    token: Option<String>,
    chat_id: Option<String>,
    reading: ClockReading,
) -> (r: Option<AlertRequest>)
    ensures
        token is None || chat_id is None ==> r is None,
        token is Some && chat_id is Some ==> r is Some,
        r matches Some(q) ==> {
            &&& token matches Some(t)
            &&& chat_id matches Some(c)
            &&& q.url@ == request_url(t@)
            &&& q.body@ == request_body(
                json_string_of(c@),
                json_string_of(alert_message(reading.khz as int, config.target_khz as int)),
            )
        },
{
    let token = match token {
        Some(t) => t,
        None => return None,
    };
    let chat_id = match chat_id {
        Some(c) => c,
        None => return None,
    };
    let text = alert_text(reading, config.target_khz);
    let chat_json = match json_string(chat_id.as_str()) {
        Ok(j) => j,
        Err(_) => return None,
    };
    let text_json = match json_string(text.as_str()) {
        Ok(j) => j,
        Err(_) => return None,
    };
    Some(request_from_parts(token.as_str(), chat_json.as_str(), text_json.as_str()))
}

} // verus!
