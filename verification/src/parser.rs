use vstd::prelude::*;
use crate::decimal::is_digit;
use crate::models::Product;

verus! {

/// The whitespace characters stripped from the ends of a title: the
/// characters with Unicode's White_Space property, the same set that
/// `str::trim` removes.
pub open spec fn is_ws(c: char) -> bool {
    let u = c as u32;
    u == 0x09 || u == 0x0A || u == 0x0B || u == 0x0C || u == 0x0D || u == 0x20 || u == 0x85
        || u == 0xA0 || u == 0x1680 || (0x2000 <= u && u <= 0x200A) || u == 0x2028 || u == 0x2029
        || u == 0x202F || u == 0x205F || u == 0x3000
}

/// `s` with its leading whitespace removed.
pub open spec fn trim_start(s: Seq<char>) -> Seq<char>
    decreases s.len(),
{
    if s.len() > 0 && is_ws(s[0]) {
        trim_start(s.drop_first())
    } else {
        s
    }
}

/// `s` with its trailing whitespace removed.
pub open spec fn trim_end(s: Seq<char>) -> Seq<char>
    decreases s.len(),
{
    if s.len() > 0 && is_ws(s.last()) {
        trim_end(s.drop_last())
    } else {
        s
    }
}

/// `s` with both leading and trailing whitespace removed.
pub open spec fn trimmed(s: Seq<char>) -> Seq<char> {
    trim_end(trim_start(s))
}

/// If the first `i` characters are whitespace and the one at `i` (when
/// there is one) is not, trimming the start keeps exactly the tail from `i`.
proof fn lemma_trim_start_subrange(s: Seq<char>, i: int)
    requires
        0 <= i <= s.len(),
        forall|j: int| 0 <= j < i ==> is_ws(s[j]),
        i == s.len() || !is_ws(s[i]),
    ensures
        trim_start(s) == s.subrange(i, s.len() as int),
    decreases i,
{
    if i == 0 {
        assert(trim_start(s) =~= s.subrange(0, s.len() as int));
    } else {
        lemma_trim_start_subrange(s.drop_first(), i - 1);
        assert(s.drop_first().subrange(i - 1, s.drop_first().len() as int)
            =~= s.subrange(i, s.len() as int));
    }
}

/// If the characters from `i` on are whitespace and the one before `i`
/// (when there is one) is not, trimming the end keeps exactly the first `i`.
proof fn lemma_trim_end_subrange(s: Seq<char>, i: int)
    requires
        0 <= i <= s.len(),
        forall|j: int| i <= j < s.len() ==> is_ws(s[j]),
        i == 0 || !is_ws(s[i - 1]),
    ensures
        trim_end(s) == s.subrange(0, i),
    decreases s.len() - i,
{
    if i == s.len() {
        assert(trim_end(s) =~= s.subrange(0, i));
    } else {
        lemma_trim_end_subrange(s.drop_last(), i);
        assert(s.drop_last().subrange(0, i) =~= s.subrange(0, i));
    }
}

/// Whether `c` is one of the whitespace characters trimming removes.
fn is_ws_char(c: char) -> (r: bool)
    ensures
        r == is_ws(c),
{
    let u: u32 = c as u32;
    u == 0x09 || u == 0x0A || u == 0x0B || u == 0x0C || u == 0x0D || u == 0x20 || u == 0x85
        || u == 0xA0 || u == 0x1680 || (0x2000 <= u && u <= 0x200A) || u == 0x2028 || u == 0x2029
        || u == 0x202F || u == 0x205F || u == 0x3000
}

/// Removes leading and trailing whitespace from `s`.
pub fn trim(s: &str) -> (r: String)
    ensures
        r@ == trimmed(s@),
{
    let len = s.unicode_len();
    let mut start: usize = 0;
    while start < len && is_ws_char(s.get_char(start))
        invariant
            start <= len,
            len == s@.len(),
            forall|j: int| 0 <= j < start ==> is_ws(s@[j]),
        decreases len - start,
    {
        start = start + 1;
    }
    let mut end: usize = len;
    while end > start && is_ws_char(s.get_char(end - 1))
        invariant
            start <= end <= len,
            len == s@.len(),
            forall|j: int| 0 <= j < start ==> is_ws(s@[j]),
            start == len || !is_ws(s@[start as int]),
            forall|j: int| end <= j < len ==> is_ws(s@[j]),
        decreases end,
    {
        end = end - 1;
    }
    let t = s.substring_char(start, end);
    proof {
        lemma_trim_start_subrange(s@, start as int);
        let mid = s@.subrange(start as int, len as int);
        lemma_trim_end_subrange(mid, end - start);
        assert(mid.subrange(0, end - start) =~= s@.subrange(start as int, end as int));
        assert(t@ =~= trimmed(s@));
    }
    String::from_str(t)
}

/// The inner markup of the first `h1` element with class
/// `product-title-text` in the document parsed from `html`, in document
/// order, if any matches.
pub uninterp spec fn title_inner_of(html: Seq<char>) -> Option<Seq<char>>;

/// Relies on scraper's `Html::parse_document` (lenient: malformed markup
/// never raises), `Selector::parse` on the fixed selector
/// `h1.product-title-text` (a constant that parses, so the unwrap cannot
/// fail), `Html::select`, and `ElementRef::inner_html`. The first match in
/// document order, and its inner markup, are functions of the document
/// text alone.
#[verifier::external_body]
fn select_title(html: &str) -> (r: Option<String>)
    ensures
        match r {
            Some(t) => title_inner_of(html@) == Some(t@),
            None => title_inner_of(html@) is None,
        },
{
    let doc = scraper::Html::parse_document(html);
    let sel = scraper::Selector::parse("h1.product-title-text").unwrap();
    match doc.select(&sel).next() {
        Some(element) => Some(element.inner_html()),
        None => None,
    }
}

/// Whether every character of `s` is a decimal digit.
pub open spec fn all_digits(s: Seq<char>) -> bool {
    forall|i: int| 0 <= i < s.len() ==> is_digit(#[trigger] s[i])
}

/// One way to cut `s` into the pieces of a UTC RFC 3339 date-time:
/// a year of `ylen` characters (four digits, or an explicit sign and at
/// least four digits for years outside that range), `-MM-DDTHH:MM:SS`,
/// an optional fraction of `flen` characters (a dot and 3, 6 or 9
/// digits), and the literal `+00:00` offset.
pub open spec fn rfc3339_utc_split(s: Seq<char>, ylen: int, flen: int) -> bool {
    &&& ylen >= 4
    &&& (flen == 0 || flen == 4 || flen == 7 || flen == 10)
    &&& s.len() == ylen + 15 + flen + 6
    &&& (all_digits(s.subrange(0, ylen)) || ((s[0] == '+' || s[0] == '-') && ylen >= 5
        && all_digits(s.subrange(1, ylen))))
    &&& s[ylen] == '-'
    &&& all_digits(s.subrange(ylen + 1, ylen + 3))
    &&& s[ylen + 3] == '-'
    &&& all_digits(s.subrange(ylen + 4, ylen + 6))
    &&& s[ylen + 6] == 'T'
    &&& all_digits(s.subrange(ylen + 7, ylen + 9))
    &&& s[ylen + 9] == ':'
    &&& all_digits(s.subrange(ylen + 10, ylen + 12))
    &&& s[ylen + 12] == ':'
    &&& all_digits(s.subrange(ylen + 13, ylen + 15))
    &&& (flen == 0 || (s[ylen + 15] == '.' && all_digits(
        s.subrange(ylen + 16, ylen + 15 + flen),
    )))
    &&& s.subrange(s.len() - 6, s.len() as int) == "+00:00"@
}

/// Whether `s` has the shape of a UTC instant rendered per RFC 3339:
/// date, 'T', time, an optional subsecond fraction, and an explicit
/// `+00:00` offset.
pub open spec fn is_rfc3339_utc(s: Seq<char>) -> bool {
    exists|ylen: int, flen: int| rfc3339_utc_split(s, ylen, flen)
}

/// Relies on chrono's `Utc::now` and `DateTime::to_rfc3339`: the current
/// UTC instant rendered per RFC 3339. The instant depends on the clock,
/// so only the rendering's shape is promised: chrono writes a four-digit
/// year (an explicit sign and more digits outside 0..=9999), two-digit
/// month, day, hour, minute and second fields, a subsecond fraction of
/// 3, 6 or 9 digits only when it is nonzero, and the `+00:00` offset.
#[verifier::external_body]
fn now_rfc3339() -> (r: String)
    ensures
        is_rfc3339_utc(r@),
{
    chrono::Utc::now().to_rfc3339()
}

/// The title a record gets for a document: the trimmed inner markup of
/// the first matching title element, or the sentinel when none matches.
pub open spec fn title_of(html: Seq<char>) -> Seq<char> {
    match title_inner_of(html) {
        Some(t) => trimmed(t),
        None => "Unknown Title"@,
    }
}

/// Builds the record for one fetched page. Absence of the title element
/// is an expected case, not a failure: the sentinel title is used. The
/// timestamp is the current instant: its value depends on the clock, so
/// only its RFC 3339 shape is stated.
pub fn parse_product(product_id: u64, html: &str) -> (r: Product)
    ensures
        r@.product_id == product_id,
        r@.title == title_of(html@),
        is_rfc3339_utc(r@.timestamp),
{
    let title = match select_title(html) {
        Some(t) => trim(t.as_str()),
        None => String::from_str("Unknown Title"),
    };
    Product { product_id, title, timestamp: now_rfc3339() }
}

} // verus!
