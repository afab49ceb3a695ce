//! What the page shows: the link to the repository, links made from text, and dates.
use vstd::prelude::*;
use chrono::NaiveDateTime;
use minijinja::value::Value;
use crate::text::{chars_of, push_all, split_char, split_pieces, views, lemma_split_nonempty};

verus! {

/// minijinja's template value, carried through as an opaque value.
#[verifier::external_type_specification]
#[verifier::external_body]
pub struct ExValue(Value);

/// chrono's date and time without a time zone, carried through as an opaque value.
#[verifier::external_type_specification]
#[verifier::external_body]
pub struct ExNaiveDateTime(NaiveDateTime);

/// What `Value::from_safe_string` makes of a string.
pub uninterp spec fn safe_string_value(s: Seq<char>) -> Value;

/// Calls `minijinja::value::Value::from_safe_string`. Claimed: the value is
/// `safe_string_value` of the text, a function of the text alone.
#[verifier::external_body]
fn safe_value(s: String) -> (v: Value)
    ensures
        v == safe_string_value(s@),
{
    Value::from_safe_string(s)
}

/// The address of the repository as a link, from the URL of its remote: what follows the
/// last `'@'` (the whole URL when it has none; a `'@'` at the very end is passed over),
/// with every `':'` turned into `'/'`.
pub open spec fn link_of(url: Seq<char>) -> Seq<char> {
    let p = split_pieces(url, '@');
    let last = if p.len() >= 2 && p.last().len() == 0 {
        p[p.len() - 2]
    } else {
        p.last()
    };
    last.map_values(|c: char| if c == ':' { '/' } else { c })
}

/// The link to the repository, from the URL of its remote, as
/// `url.split_terminator("@").last().unwrap().replace(":", "/")`; an empty URL has no
/// last piece.
pub fn repo_link(url: &str) -> (r: String)
    requires
        url@.len() > 0,
    ensures
        r@ == link_of(url@),
{
    let pieces = split_char(url, '@');
    proof {
        lemma_split_nonempty(url@, '@');
    }
    let n = pieces.len();
    let k = if n >= 2 && pieces[n - 1].as_str().unicode_len() == 0 {
        n - 2
    } else {
        n - 1
    };
    let ghost p = split_pieces(url@, '@');
    proof {
        assert(views(pieces@)[k as int] == pieces@[k as int]@);
    }
    let cs = chars_of(pieces[k].as_str());
    let mut r = String::new();
    let mut i: usize = 0;
    while i < cs.len()
        invariant
            i <= cs.len(),
            r@ == cs@.take(i as int).map_values(|c: char| if c == ':' { '/' } else { c }),
        decreases cs.len() - i,
    {
        let c = cs[i];
        r.push(if c == ':' { '/' } else { c });
        proof {
            assert(cs@.take(i + 1).map_values(|c: char| if c == ':' { '/' } else { c }) =~= cs@.take(
                i as int,
            ).map_values(|c: char| if c == ':' { '/' } else { c }).push(if c == ':' { '/' } else { c }));
        }
        i += 1;
    }
    proof {
        assert(cs@.take(cs.len() as int) =~= cs@);
    }
    r
}

/// The HTML of a link to `https:<value>` that shows `value`.
pub open spec fn link_html(value: Seq<char>) -> Seq<char> {
    "<a href=\"https:"@ + value + "\">"@ + value + "</a>"@
}

/// The template filter that turns text into a link, `<a href="https:value">value</a>`,
/// marked safe so that the template does not escape it.
pub fn urlize(value: String) -> (r: Value)
    ensures
        r == safe_string_value(link_html(value@)),
{
    let mut v = String::new();
    push_all(&mut v, "<a href=\"https:");
    push_all(&mut v, value.as_str());
    push_all(&mut v, "\">");
    push_all(&mut v, value.as_str());
    push_all(&mut v, "</a>");
    proof {
        assert(v@ =~= link_html(value@));
    }
    safe_value(v)
}

/// The first second that chrono can represent: the start of January 1 of its first year.
pub open spec fn first_representable_second() -> int {
    -8_334_601_228_800
}

/// The last second that chrono can represent: the end of December 31 of its last year.
pub open spec fn last_representable_second() -> int {
    8_210_266_876_799
}

/// Whether `secs` seconds after the epoch is a date and time that chrono can represent.
pub open spec fn representable(secs: i64) -> bool {
    first_representable_second() <= secs <= last_representable_second()
}

/// The date and time that chrono gives for `secs` seconds after the epoch.
pub uninterp spec fn datetime_at(secs: i64) -> NaiveDateTime;

/// Calls `chrono::NaiveDateTime::from_timestamp_opt(secs, 0)`. Claimed: it gives
/// `datetime_at(secs)` exactly when the day of `secs` lies between chrono's first and
/// last dates (years -262143 to 262142), and nothing otherwise.
#[verifier::external_body]
fn datetime_from_timestamp(secs: i64) -> (r: Option<NaiveDateTime>)
    ensures
        r == (if representable(secs) {
            Some(datetime_at(secs))
        } else {
            None
        }),
{
    #[allow(deprecated)]
    NaiveDateTime::from_timestamp_opt(secs, 0)
}

/// The text that chrono's `format` with `fmt` writes for `dt`.
pub uninterp spec fn datetime_text(dt: NaiveDateTime, fmt: Seq<char>) -> Seq<char>;

/// The pattern of the dates on the page: year, month, day, hours, minutes and seconds.
pub open spec fn date_pattern() -> Seq<char> {
    "%Y-%m-%d %H:%M:%S"@
}

/// Calls `chrono::NaiveDateTime::format(fmt)` and renders it with `to_string`. Claimed:
/// the text is `datetime_text` of the date and the pattern. Only the page's pattern is
/// handed over, which chrono can always render.
#[verifier::external_body]
fn format_datetime(dt: &NaiveDateTime, fmt: &str) -> (r: String)
    requires
        fmt@ == date_pattern(),
    ensures
        r@ == datetime_text(*dt, fmt@),
{
    dt.format(fmt).to_string()
}

/// The template filter that shows a time, `value` seconds after the epoch, as
/// `"%Y-%m-%d %H:%M:%S"`, marked safe.
pub fn format_date(value: i64) -> (r: Value)
    requires
        representable(value),
    ensures
        r == safe_string_value(datetime_text(datetime_at(value), date_pattern())),
{
    let naive = datetime_from_timestamp(value).unwrap();
    let text = format_datetime(&naive, "%Y-%m-%d %H:%M:%S");
    safe_value(text)
}

/// Whether chrono can represent the time `secs` seconds after the epoch, which
/// `format_date` asks of its argument.
pub fn representable_time(secs: i64) -> (r: bool)
    ensures
        r == representable(secs),
{
    -8_334_601_228_800 <= secs && secs <= 8_210_266_876_799
}

/// A link to the repository never holds a `':'`.
pub proof fn lemma_link_has_no_colon(url: Seq<char>)
    ensures
        !link_of(url).contains(':'),
{
    if link_of(url).contains(':') {
        let k = choose|k: int| 0 <= k < link_of(url).len() && link_of(url)[k] == ':';
        assert(link_of(url)[k] != ':');
    }
}

} // verus!
