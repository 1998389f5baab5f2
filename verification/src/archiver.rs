use vstd::prelude::*;
use crate::decimal::dec_of;
use crate::decimal::is_digit;
use crate::decimal::is_digit_char;
use crate::decimal::val_of;
use crate::decimal::digits_to_u64;
use crate::decimal::push_dec;
use crate::decimal::lemma_dec_of;
use crate::decimal::lemma_dec_of_val;
use crate::decimal::lemma_dec_of_leading_zero;
use crate::escape::esc;
use crate::escape::escape_str;
use crate::escape::parse_escaped;
use crate::escape::lemma_esc_no_quote;
use crate::escape::lemma_esc_injective;
use crate::models::Product;
use crate::models::ProductModel;

verus! {

/// The text before the identifier in a serialized record.
pub open spec fn j_pre() -> Seq<char> {
    "{\n  \"product_id\": "@
}

/// The text between the identifier and the title.
pub open spec fn j_mid1() -> Seq<char> {
    ",\n  \"title\": \""@
}

/// The text between the title and the timestamp.
pub open spec fn j_mid2() -> Seq<char> {
    "\",\n  \"timestamp\": \""@
}

/// The text closing a serialized record.
pub open spec fn j_end() -> Seq<char> {
    "\"\n}"@
}

/// The serialized form of a record: an indented JSON object whose keys
/// come in the fixed order product_id, title, timestamp, with both text
/// fields written as escaped JSON string literals.
pub open spec fn json_of(m: ProductModel) -> Seq<char> {
    j_pre() + dec_of(m.product_id as nat) + j_mid1() + esc(m.title) + j_mid2() + esc(m.timestamp)
        + j_end()
}

/// Serializes a record to its indented JSON text.
pub fn to_json_pretty(p: &Product) -> (r: String)
    ensures
        r@ == json_of(p@),
{
    let mut out = String::from_str("{\n  \"product_id\": ");
    push_dec(&mut out, p.product_id);
    out.append(",\n  \"title\": \"");
    let et = escape_str(p.title.as_str());
    out.append(et.as_str());
    out.append("\",\n  \"timestamp\": \"");
    let eu = escape_str(p.timestamp.as_str());
    out.append(eu.as_str());
    out.append("\"\n}");
    proof {
        assert(out@ =~= json_of(p@));
    }
    out
}

/// The characters of `s`, one by one.
pub(crate) fn to_chars(s: &str) -> (v: Vec<char>)
    ensures
        v@ == s@,
{
    let len = s.unicode_len();
    let mut v: Vec<char> = Vec::new();
    let mut i: usize = 0;
    while i < len
        invariant
            i <= len,
            len == s@.len(),
            v@ == s@.take(i as int),
        decreases len - i,
    {
        v.push(s.get_char(i));
        proof {
            assert(s@.take(i + 1) =~= s@.take(i as int).push(s@[i as int]));
        }
        i = i + 1;
    }
    proof {
        assert(s@.take(len as int) =~= s@);
    }
    v
}

/// Whether `pat` occurs in `v` starting exactly at `pos`.
fn starts_with_at(v: &Vec<char>, pos: usize, pat: &str) -> (r: bool)
    requires
        pos <= v@.len(),
    ensures
        r == (pos + pat@.len() <= v@.len() && v@.subrange(pos as int, pos + pat@.len()) == pat@),
{
    let plen = pat.unicode_len();
    let vn = v.len();
    if vn - pos < plen {
        return false;
    }
    let mut i: usize = 0;
    while i < plen
        invariant
            i <= plen,
            plen == pat@.len(),
            vn == v@.len(),
            pos + plen <= vn,
            forall|j: int| 0 <= j < i ==> v@[pos + j] == pat@[j],
        decreases plen - i,
    {
        if v[pos + i] != pat.get_char(i) {
            proof {
                if v@.subrange(pos as int, pos + pat@.len()) == pat@ {
                    assert(v@.subrange(pos as int, pos + pat@.len())[i as int] == v@[pos + i]);
                    assert(false);
                }
            }
            return false;
        }
        i = i + 1;
    }
    proof {
        assert(v@.subrange(pos as int, pos + pat@.len()) =~= pat@);
    }
    true
}

/// Where each part of a serialized record stands in its text.
proof fn lemma_json_parts(m: ProductModel)
    ensures
        json_of(m).len() == j_pre().len() as int + dec_of(m.product_id as nat).len() + j_mid1().len()
            + esc(m.title).len() + j_mid2().len() + esc(m.timestamp).len() + j_end().len(),
        json_of(m).subrange(0, j_pre().len() as int) == j_pre(),
        json_of(m).subrange(
            j_pre().len() as int,
            j_pre().len() as int + dec_of(m.product_id as nat).len(),
        ) == dec_of(m.product_id as nat),
        json_of(m).subrange(
            j_pre().len() as int + dec_of(m.product_id as nat).len(),
            j_pre().len() as int + dec_of(m.product_id as nat).len() + j_mid1().len(),
        ) == j_mid1(),
        json_of(m).subrange(
            j_pre().len() as int + dec_of(m.product_id as nat).len() + j_mid1().len(),
            j_pre().len() as int + dec_of(m.product_id as nat).len() + j_mid1().len()
                + esc(m.title).len(),
        ) == esc(m.title),
        json_of(m).subrange(
            j_pre().len() as int + dec_of(m.product_id as nat).len() + j_mid1().len()
                + esc(m.title).len(),
            j_pre().len() as int + dec_of(m.product_id as nat).len() + j_mid1().len() + esc(m.title).len()
                + j_mid2().len(),
        ) == j_mid2(),
        json_of(m).subrange(
            j_pre().len() as int + dec_of(m.product_id as nat).len() + j_mid1().len() + esc(m.title).len()
                + j_mid2().len(),
            j_pre().len() as int + dec_of(m.product_id as nat).len() + j_mid1().len() + esc(m.title).len()
                + j_mid2().len() + esc(m.timestamp).len(),
        ) == esc(m.timestamp),
        json_of(m).subrange(
            j_pre().len() as int + dec_of(m.product_id as nat).len() + j_mid1().len() + esc(m.title).len()
                + j_mid2().len() + esc(m.timestamp).len(),
            json_of(m).len() as int,
        ) == j_end(),
{
    let s = json_of(m);
    let lp = j_pre().len() as int;
    let ld = dec_of(m.product_id as nat).len() as int;
    let l1 = j_mid1().len() as int;
    let lt = esc(m.title).len() as int;
    let l2 = j_mid2().len() as int;
    let lu = esc(m.timestamp).len() as int;
    assert(s.subrange(0, lp) =~= j_pre());
    assert(s.subrange(lp, lp + ld) =~= dec_of(m.product_id as nat));
    assert(s.subrange(lp + ld, lp + ld + l1) =~= j_mid1());
    assert(s.subrange(lp + ld + l1, lp + ld + l1 + lt) =~= esc(m.title));
    assert(s.subrange(lp + ld + l1 + lt, lp + ld + l1 + lt + l2) =~= j_mid2());
    assert(s.subrange(lp + ld + l1 + lt + l2, lp + ld + l1 + lt + l2 + lu) =~= esc(m.timestamp));
    assert(s.subrange(lp + ld + l1 + lt + l2 + lu, s.len() as int) =~= j_end());
}

/// In a serialized record, the run of digits after the opening text is
/// exactly the identifier's rendering: any maximal digit run starting
/// there ends where the rendering does.
proof fn lemma_digit_run(s: Seq<char>, m: ProductModel, q: int)
    requires
        s == json_of(m),
        j_pre().len() <= q <= s.len(),
        forall|j: int| j_pre().len() <= j < q ==> is_digit(#[trigger] s[j]),
        q == s.len() || !is_digit(s[q]),
    ensures
        q == j_pre().len() as int + dec_of(m.product_id as nat).len(),
{
    lemma_json_parts(m);
    lemma_dec_of(m.product_id as nat);
    let lp = j_pre().len() as int;
    let d = dec_of(m.product_id as nat);
    let ld = d.len() as int;
    assert(forall|j: int| lp <= j < lp + ld ==> is_digit(#[trigger] s[j])) by {
        assert(forall|j: int|
            lp <= j < lp + ld ==> #[trigger] s[j] == s.subrange(lp, lp + ld)[j - lp]);
    }
    reveal_strlit(",\n  \"title\": \"");
    assert(s[lp + ld] == j_mid1()[0]) by {
        assert(s.subrange(lp + ld, lp + ld + j_mid1().len())[0] == s[lp + ld]);
    }
    assert(s[lp + ld] == ',');
    if q < lp + ld {
        assert(is_digit(s[q]));
        assert(false);
    }
    if q > lp + ld {
        assert(is_digit(s[lp + ld]));
        assert(false);
    }
}

/// Two escaped bodies starting at the same place and each ending at a
/// quote end at the same place: an escaped body contains no bare quote.
proof fn lemma_quote_end_unique(v: Seq<char>, t0: int, e1: int, e2: int, a: Seq<char>, b: Seq<char>)
    requires
        0 <= t0,
        t0 <= e1 < v.len(),
        t0 <= e2 < v.len(),
        v.subrange(t0, e1) == esc(a),
        v.subrange(t0, e2) == esc(b),
        v[e1] == '"',
        v[e2] == '"',
    ensures
        e1 == e2,
{
    lemma_esc_no_quote(a);
    lemma_esc_no_quote(b);
    if e1 < e2 {
        assert(v.subrange(t0, e2)[e1 - t0] == v[e1]);
        assert(esc(b)[e1 - t0] != '"');
        assert(false);
    }
    if e2 < e1 {
        assert(v.subrange(t0, e1)[e2 - t0] == v[e2]);
        assert(esc(a)[e2 - t0] != '"');
        assert(false);
    }
}

/// Law: a serialized record determines the record: two records with the
/// same JSON text agree in all three fields. Together with the contract
/// of `from_json`, reading a persisted record back yields the original.
pub proof fn lemma_json_of_injective(m1: ProductModel, m2: ProductModel)
    requires
        json_of(m1) == json_of(m2),
    ensures
        m1.product_id == m2.product_id,
        m1.title == m2.title,
        m1.timestamp == m2.timestamp,
{
    let s = json_of(m1);
    lemma_json_parts(m1);
    lemma_json_parts(m2);
    lemma_dec_of(m1.product_id as nat);
    lemma_dec_of(m2.product_id as nat);
    let lp = j_pre().len() as int;
    let d1 = dec_of(m1.product_id as nat);
    let ld1 = d1.len() as int;
    assert(forall|j: int| lp <= j < lp + ld1 ==> is_digit(#[trigger] s[j])) by {
        assert(forall|j: int|
            lp <= j < lp + ld1 ==> #[trigger] s[j] == s.subrange(lp, lp + ld1)[j - lp]);
    }
    reveal_strlit(",\n  \"title\": \"");
    assert(s[lp + ld1] == j_mid1()[0]) by {
        assert(s.subrange(lp + ld1, lp + ld1 + j_mid1().len())[0] == s[lp + ld1]);
    }
    assert(s[lp + ld1] == ',');
    assert(!is_digit(s[lp + ld1]));
    lemma_digit_run(s, m2, lp + ld1);
    let ld2 = dec_of(m2.product_id as nat).len() as int;
    assert(ld1 == ld2);
    assert(dec_of(m1.product_id as nat) == dec_of(m2.product_id as nat));
    assert(m1.product_id == m2.product_id) by {
        assert(val_of(dec_of(m1.product_id as nat)) == val_of(dec_of(m2.product_id as nat)));
    }
    let l1 = j_mid1().len() as int;
    let t0 = lp + ld1 + l1;
    let e1 = t0 + esc(m1.title).len();
    let e2 = t0 + esc(m2.title).len();
    reveal_strlit("\",\n  \"timestamp\": \"");
    assert(s[e1] == '"') by {
        assert(s.subrange(e1, e1 + j_mid2().len())[0] == s[e1]);
        assert(j_mid2()[0] == '"');
    }
    assert(s[e2] == '"') by {
        assert(s.subrange(e2, e2 + j_mid2().len())[0] == s[e2]);
        assert(j_mid2()[0] == '"');
    }
    lemma_quote_end_unique(s, t0, e1, e2, m1.title, m2.title);
    assert(esc(m1.title) == esc(m2.title));
    lemma_esc_injective(m1.title, m2.title);
    let l2 = j_mid2().len() as int;
    let t1 = e1 + l2;
    let f1 = t1 + esc(m1.timestamp).len();
    let f2 = t1 + esc(m2.timestamp).len();
    reveal_strlit("\"\n}");
    assert(s[f1] == '"') by {
        assert(s.subrange(f1, s.len() as int)[0] == s[f1]);
        assert(j_end()[0] == '"');
    }
    assert(s[f2] == '"') by {
        assert(s.subrange(f2, s.len() as int)[0] == s[f2]);
        assert(j_end()[0] == '"');
    }
    lemma_quote_end_unique(s, t1, f1, f2, m1.timestamp, m2.timestamp);
    assert(esc(m1.timestamp) == esc(m2.timestamp));
    lemma_esc_injective(m1.timestamp, m2.timestamp);
}


/// Reads a record back from its serialized JSON text. Exactly the texts
/// that `json_of` produces are accepted: when nothing is returned, no
/// record at all serializes to the given text.
#[verifier::rlimit(100)]
pub fn from_json(s: &str) -> (r: Option<Product>)
    ensures
        match r {
            Some(p) => s@ == json_of(p@),
            None => forall|m: ProductModel| s@ != json_of(m),
        },
{
    let v = to_chars(s);
    let n = v.len();
    let pre = "{\n  \"product_id\": ";
    let lp = pre.unicode_len();
    proof {
        assert(pre@ == j_pre());
    }
    if !starts_with_at(&v, 0, pre) {
        proof {
            assert forall|m: ProductModel| s@ != json_of(m) by {
                if s@ == json_of(m) {
                    lemma_json_parts(m);
                    assert(v@.subrange(0, j_pre().len() as int) == j_pre());
                    assert(false);
                }
            }
        }
        return None;
    }
    let mut q: usize = lp;
    while q < n && is_digit_char(v[q])
        invariant
            lp <= q <= n,
            n == v@.len(),
            forall|j: int| lp <= j < q ==> is_digit(#[trigger] v@[j]),
        decreases n - q,
    {
        q = q + 1;
    }
    if q == lp {
        proof {
            assert forall|m: ProductModel| s@ != json_of(m) by {
                if s@ == json_of(m) {
                    lemma_dec_of(m.product_id as nat);
                    lemma_digit_run(s@, m, q as int);
                    assert(false);
                }
            }
        }
        return None;
    }
    if v[lp] == '0' && q - lp > 1 {
        proof {
            assert forall|m: ProductModel| s@ != json_of(m) by {
                if s@ == json_of(m) {
                    lemma_json_parts(m);
                    lemma_dec_of(m.product_id as nat);
                    lemma_digit_run(s@, m, q as int);
                    let lpg = j_pre().len() as int;
                    let d = dec_of(m.product_id as nat);
                    assert(s@[lpg] == d[0]) by {
                        assert(s@.subrange(lpg, lpg + d.len())[0] == s@[lpg]);
                    }
                    assert(d[0] == '0');
                    lemma_dec_of_leading_zero(m.product_id as nat);
                    assert(d.len() == 1);
                    assert(false);
                }
            }
        }
        return None;
    }
    let id = match digits_to_u64(&v, lp, q) {
        Some(x) => x,
        None => {
            proof {
                assert forall|m: ProductModel| s@ != json_of(m) by {
                    if s@ == json_of(m) {
                        lemma_json_parts(m);
                        lemma_dec_of(m.product_id as nat);
                        lemma_digit_run(s@, m, q as int);
                        assert(v@.subrange(lp as int, q as int) == dec_of(m.product_id as nat));
                        assert(false);
                    }
                }
            }
            return None;
        },
    };
    proof {
        let ds = v@.subrange(lp as int, q as int);
        assert(forall|i: int| 0 <= i < ds.len() ==> is_digit(#[trigger] ds[i])) by {
            assert(forall|i: int| 0 <= i < ds.len() ==> #[trigger] ds[i] == v@[lp + i]);
        }
        assert(ds[0] == v@[lp as int]);
        lemma_dec_of_val(ds);
        assert(ds == dec_of(id as nat));
    }
    let mid1 = ",\n  \"title\": \"";
    proof {
        assert(mid1@ == j_mid1());
    }
    if !starts_with_at(&v, q, mid1) {
        proof {
            assert forall|m: ProductModel| s@ != json_of(m) by {
                if s@ == json_of(m) {
                    lemma_json_parts(m);
                    lemma_digit_run(s@, m, q as int);
                    let lpg = j_pre().len() as int;
                    let ld = dec_of(m.product_id as nat).len() as int;
                    assert(v@.subrange(lpg + ld, lpg + ld + j_mid1().len()) == j_mid1());
                    assert(false);
                }
            }
        }
        return None;
    }
    let t0 = q + mid1.unicode_len();
    let te1 = match parse_escaped(&v, t0) {
        Some(te) => te,
        None => {
            proof {
                assert forall|m: ProductModel| s@ != json_of(m) by {
                    if s@ == json_of(m) {
                        lemma_json_parts(m);
                        lemma_digit_run(s@, m, q as int);
                        reveal_strlit("\",\n  \"timestamp\": \"");
                        let lpg = j_pre().len() as int;
                        let ld = dec_of(m.product_id as nat).len() as int;
                        let tg = lpg + ld + j_mid1().len();
                        assert(tg == t0 as int);
                        let eg = tg + esc(m.title).len();
                        assert(v@.subrange(t0 as int, eg) == esc(m.title));
                        assert(v@[eg] == j_mid2()[0]) by {
                            assert(v@.subrange(eg, eg + j_mid2().len())[0] == v@[eg]);
                        }
                        assert(v@[eg] == '"');
                        assert(eg < n);
                        assert(false);
                    }
                }
            }
            return None;
        },
    };
    let title = te1.0;
    let e1 = te1.1;
    let mid2 = "\",\n  \"timestamp\": \"";
    proof {
        assert(mid2@ == j_mid2());
    }
    if !starts_with_at(&v, e1, mid2) {
        proof {
            assert forall|m: ProductModel| s@ != json_of(m) by {
                if s@ == json_of(m) {
                    lemma_json_parts(m);
                    lemma_digit_run(s@, m, q as int);
                    reveal_strlit("\",\n  \"timestamp\": \"");
                    let lpg = j_pre().len() as int;
                    let ld = dec_of(m.product_id as nat).len() as int;
                    let tg = lpg + ld + j_mid1().len();
                    assert(tg == t0 as int);
                    let eg = tg + esc(m.title).len();
                    assert(v@.subrange(t0 as int, eg) == esc(m.title));
                    assert(v@[eg] == j_mid2()[0]) by {
                        assert(v@.subrange(eg, eg + j_mid2().len())[0] == v@[eg]);
                    }
                    assert(v@[eg] == '"');
                    assert(eg < n);
                    lemma_quote_end_unique(v@, t0 as int, e1 as int, eg, title@, m.title);
                    assert(v@.subrange(eg, eg + j_mid2().len()) == j_mid2());
                    assert(false);
                }
            }
        }
        return None;
    }
    let t1 = e1 + mid2.unicode_len();
    let te2 = match parse_escaped(&v, t1) {
        Some(te) => te,
        None => {
            proof {
                assert forall|m: ProductModel| s@ != json_of(m) by {
                    if s@ == json_of(m) {
                        lemma_json_parts(m);
                        lemma_digit_run(s@, m, q as int);
                        reveal_strlit("\",\n  \"timestamp\": \"");
                        reveal_strlit("\"\n}");
                        let lpg = j_pre().len() as int;
                        let ld = dec_of(m.product_id as nat).len() as int;
                        let tg = lpg + ld + j_mid1().len();
                        assert(tg == t0 as int);
                        let eg = tg + esc(m.title).len();
                        assert(v@.subrange(t0 as int, eg) == esc(m.title));
                        assert(v@[eg] == j_mid2()[0]) by {
                            assert(v@.subrange(eg, eg + j_mid2().len())[0] == v@[eg]);
                        }
                        assert(v@[eg] == '"');
                        assert(eg < n);
                        lemma_quote_end_unique(v@, t0 as int, e1 as int, eg, title@, m.title);
                        let ug = eg + j_mid2().len();
                        assert(ug == t1 as int);
                        let fg = ug + esc(m.timestamp).len();
                        assert(v@.subrange(t1 as int, fg) == esc(m.timestamp));
                        assert(v@[fg] == j_end()[0]) by {
                            assert(v@.subrange(fg, fg + j_end().len())[0] == v@[fg]);
                        }
                        assert(v@[fg] == '"');
                        assert(fg < n);
                        assert(false);
                    }
                }
            }
            return None;
        },
    };
    let ts = te2.0;
    let e2 = te2.1;
    let endlit = "\"\n}";
    proof {
        assert(endlit@ == j_end());
    }
    let end_ok = starts_with_at(&v, e2, endlit);
    let endlen = endlit.unicode_len();
    if !end_ok || e2 + endlen != n {
        proof {
            assert forall|m: ProductModel| s@ != json_of(m) by {
                if s@ == json_of(m) {
                    lemma_json_parts(m);
                    lemma_digit_run(s@, m, q as int);
                    reveal_strlit("\",\n  \"timestamp\": \"");
                    reveal_strlit("\"\n}");
                    let lpg = j_pre().len() as int;
                    let ld = dec_of(m.product_id as nat).len() as int;
                    let tg = lpg + ld + j_mid1().len();
                    assert(tg == t0 as int);
                    let eg = tg + esc(m.title).len();
                    assert(v@.subrange(t0 as int, eg) == esc(m.title));
                    assert(v@[eg] == j_mid2()[0]) by {
                        assert(v@.subrange(eg, eg + j_mid2().len())[0] == v@[eg]);
                    }
                    assert(v@[eg] == '"');
                    assert(eg < n);
                    lemma_quote_end_unique(v@, t0 as int, e1 as int, eg, title@, m.title);
                    let ug = eg + j_mid2().len();
                    assert(ug == t1 as int);
                    let fg = ug + esc(m.timestamp).len();
                    assert(v@.subrange(t1 as int, fg) == esc(m.timestamp));
                    assert(v@[fg] == j_end()[0]) by {
                        assert(v@.subrange(fg, fg + j_end().len())[0] == v@[fg]);
                    }
                    assert(v@[fg] == '"');
                    assert(fg < n);
                    lemma_quote_end_unique(v@, t1 as int, e2 as int, fg, ts@, m.timestamp);
                    assert(v@.subrange(fg, fg + j_end().len()) == j_end());
                    assert(fg + j_end().len() == n);
                    assert(false);
                }
            }
        }
        return None;
    }
    let p = Product { product_id: id, title, timestamp: ts };
    proof {
        assert(v@.subrange(0, lp as int) == j_pre());
        assert(v@.subrange(lp as int, q as int) == dec_of(id as nat));
        assert(v@.subrange(q as int, t0 as int) == j_mid1());
        assert(v@.subrange(t0 as int, e1 as int) == esc(p@.title));
        assert(v@.subrange(e1 as int, t1 as int) == j_mid2());
        assert(v@.subrange(t1 as int, e2 as int) == esc(p@.timestamp));
        assert(v@.subrange(e2 as int, n as int) == j_end());
        assert(s@ =~= json_of(p@));
    }
    Some(p)
}


/// Law: persisting a record and reading the text back yields a record
/// equal to the original in all three fields. The serialized text always
/// parses, and parsing returns exactly the record it came from.
pub fn round_trip(p: &Product) -> (r: Product)
    ensures
        r@.product_id == p@.product_id,
        r@.title == p@.title,
        r@.timestamp == p@.timestamp,
{
    let text = to_json_pretty(p);
    match from_json(text.as_str()) {
        Some(q) => {
            proof {
                lemma_json_of_injective(q@, p@);
            }
            q
        },
        None => {
            proof {
                assert(text@ == json_of(p@));
                assert(false);
            }
            vstd::pervasive::unreached()
        },
    }
}

} // verus!
