//! Numbers and texts written out.

use crate::table::views;
use vstd::prelude::*;

verus! {

/// The decimal digits of a non-negative number.
pub open spec fn digits(n: nat) -> Seq<char>
    decreases n,
{
    if n < 10 {
        seq![digit(n as int)]
    } else {
        digits(n / 10).push(digit((n % 10) as int))
    }
}

/// The character of a digit.
pub open spec fn digit(d: int) -> char {
    (48 + d) as char
}

/// A number in decimal, with a minus sign where it is negative.
pub open spec fn int_text(n: int) -> Seq<char> {
    if n >= 0 {
        digits(n as nat)
    } else {
        seq!['-'] + digits((-n) as nat)
    }
}

/// A text between quotation marks, with what is not printable escaped, as
/// the standard library's debug format writes it.
pub uninterp spec fn debug_text(text: Seq<char>) -> Seq<char>;

/// The standard library's `{:?}` of a text. What it escapes, and how, is the
/// named result.
#[verifier::external_body]
pub(crate) fn quote(text: &String) -> (r: String)
    ensures
        r@ == debug_text(text@),
{
    format!("{:?}", text)
}

/// The character of a digit.
fn digit_char(d: u64) -> (r: char)
    requires
        d < 10,
    ensures
        r == digit(d as int),
{
    (48u8 + d as u8) as char
}

/// A non-negative number in decimal.
pub fn write_nat(n: u64) -> (r: String)
    ensures
        r@ == digits(n as nat),
    decreases n,
{
    let mut out = if n < 10 {
        String::new()
    } else {
        write_nat(n / 10)
    };
    let c = digit_char(n % 10);
    push_char(&mut out, c);
    assert(n < 10 ==> out@ =~= seq![digit(n as int)]);
    out
}

/// The standard library's `String::push`: one more character at the end.
#[verifier::external_body]
pub(crate) fn push_char(text: &mut String, c: char)
    ensures
        final(text)@ == old(text)@.push(c),
{
    text.push(c);
}

/// A number in decimal.
pub fn write_int(n: i64) -> (r: String)
    ensures
        r@ == int_text(n as int),
{
    if n >= 0 {
        write_nat(n as u64)
    } else {
        let mut out = "-".to_owned();
        proof {
            reveal_strlit("-");
        }
        let magnitude: u64 = (-(n + 1)) as u64 + 1;
        out.append(write_nat(magnitude).as_str());
        assert("-"@ =~= seq!['-']);
        out
    }
}

/// `a` comes no later than `b` in the order of their characters.
pub open spec fn text_at_most(a: Seq<char>, b: Seq<char>) -> bool
    decreases a.len(),
{
    if a.len() == 0 {
        true
    } else if b.len() == 0 {
        false
    } else if a[0] != b[0] {
        (a[0] as int) < (b[0] as int)
    } else {
        text_at_most(a.drop_first(), b.drop_first())
    }
}

/// Whether `a` comes no later than `b` in the order of their characters.
pub fn text_not_after(a: &str, b: &str) -> (r: bool)
    ensures
        r == text_at_most(a@, b@),
{
    let n = a.unicode_len();
    let m = b.unicode_len();
    let mut i: usize = 0;
    assert(a@.skip(0) =~= a@ && b@.skip(0) =~= b@);
    while i < n
        invariant
            n == a@.len(),
            m == b@.len(),
            i <= n,
            i <= m,
            text_at_most(a@, b@) == text_at_most(a@.skip(i as int), b@.skip(i as int)),
        decreases n - i,
    {
        let ghost x = a@.skip(i as int);
        let ghost y = b@.skip(i as int);
        if i >= m {
            return false;
        }
        let c = a.get_char(i);
        let d = b.get_char(i);
        assert(x[0] == c && y[0] == d);
        if c != d {
            return (c as u32) < (d as u32);
        }
        assert(x.drop_first() =~= a@.skip(i + 1));
        assert(y.drop_first() =~= b@.skip(i + 1));
        i += 1;
    }
    true
}

/// Of two texts, one comes no later than the other; both do only if they are
/// the same.
pub proof fn lemma_text_total(a: Seq<char>, b: Seq<char>)
    ensures
        text_at_most(a, b) || text_at_most(b, a),
        text_at_most(a, b) && text_at_most(b, a) ==> a == b,
    decreases a.len(),
{
    if a.len() == 0 || b.len() == 0 {
        if a.len() == 0 && b.len() == 0 {
            assert(a =~= b);
        }
    } else if a[0] == b[0] {
        lemma_text_total(a.drop_first(), b.drop_first());
        if text_at_most(a, b) && text_at_most(b, a) {
            assert(a.drop_first() == b.drop_first());
            assert(a =~= seq![a[0]] + a.drop_first());
            assert(b =~= seq![b[0]] + b.drop_first());
        }
    }
}

/// A text that comes no later than a second, which comes no later than a
/// third, comes no later than the third.
pub proof fn lemma_text_transitive(a: Seq<char>, b: Seq<char>, c: Seq<char>)
    requires
        text_at_most(a, b),
        text_at_most(b, c),
    ensures
        text_at_most(a, c),
    decreases a.len(),
{
    if a.len() > 0 && b.len() > 0 && c.len() > 0 && a[0] == b[0] && b[0] == c[0] {
        lemma_text_transitive(a.drop_first(), b.drop_first(), c.drop_first());
    }
}

/// Whether two texts are the same.
pub fn same_text(a: &str, b: &str) -> (r: bool)
    ensures
        r == (a@ == b@),
{
    proof {
        lemma_text_total(a@, b@);
    }
    text_not_after(a, b) && text_not_after(b, a)
}

/// Each text comes before the next.
pub open spec fn ascending(list: Seq<Seq<char>>) -> bool {
    forall|i: int, j: int|
        0 <= i < j < list.len() ==> text_at_most(#[trigger] list[i], #[trigger] list[j]) && list[i]
            != list[j]
}

/// Where a text goes in an ascending list: behind all that come before it.
pub fn place_in(list: &Vec<String>, text: &str) -> (r: usize)
    requires
        ascending(views(list@)),
    ensures
        r <= list@.len(),
        forall|i: int|
            0 <= i < r ==> !text_at_most(text@, #[trigger] views(list@)[i]),
        forall|i: int|
            r <= i < list@.len() ==> text_at_most(text@, #[trigger] views(list@)[i]),
{
    let ghost all = views(list@);
    let mut i: usize = 0;
    while i < list.len()
        invariant
            all == views(list@),
            ascending(all),
            i <= list@.len(),
            forall|j: int| 0 <= j < i ==> !text_at_most(text@, #[trigger] all[j]),
        decreases list@.len() - i,
    {
        if text_not_after(text, list[i].as_str()) {
            proof {
                assert forall|j: int| i <= j < all.len() implies text_at_most(
                    text@,
                    #[trigger] all[j],
                ) by {
                    if i < j {
                        assert(text_at_most(all[i as int], all[j]));
                        lemma_text_transitive(text@, all[i as int], all[j]);
                    }
                }
            }
            return i;
        }
        i += 1;
    }
    i
}

/// A list with one more text, each in its place and none twice.
fn insert_text(list: &mut Vec<String>, text: String)
    requires
        ascending(views(old(list)@)),
    ensures
        ascending(views(final(list)@)),
        forall|x: Seq<char>| #[trigger]
            views(final(list)@).contains(x) <==> views(old(list)@).contains(x) || x == text@,
{
    let ghost all = views(list@);
    let at = place_in(list, text.as_str());
    if at < list.len() && list[at] == text {
        assert(all[at as int] == text@);
        return;
    }
    let ghost word = text@;
    list.insert(at, text);
    let ghost after = views(list@);
    proof {
        assert(after =~= all.insert(at as int, word));
        assert forall|i: int, j: int| 0 <= i < j < after.len() implies text_at_most(
            #[trigger] after[i],
            #[trigger] after[j],
        ) && after[i] != after[j] by {
            let x = if i < at {
                i
            } else {
                i - 1
            };
            let y = if j < at {
                j
            } else {
                j - 1
            };
            if i != at && j != at {
                assert(after[i] == all[x] && after[j] == all[y]);
            } else if j == at {
                assert(after[i] == all[i]);
                assert(!text_at_most(word, all[i]));
                lemma_text_total(all[i], word);
            } else {
                assert(after[j] == all[j - 1]);
                assert(text_at_most(word, all[j - 1]));
                if all[j - 1] == word {
                    if at < j - 1 {
                        assert(text_at_most(all[at as int], all[j - 1]) && all[at as int]
                            != all[j - 1]);
                        assert(text_at_most(word, all[at as int]));
                        lemma_text_total(all[at as int], word);
                    }
                }
            }
        }
        assert forall|x: Seq<char>| #[trigger] after.contains(x) <==> all.contains(x) || x
            == word by {
            if all.contains(x) {
                let i = choose|i: int| 0 <= i < all.len() && all[i] == x;
                if i < at {
                    assert(after[i] == x);
                } else {
                    assert(after[i + 1] == x);
                }
            }
            if x == word {
                assert(after[at as int] == x);
            }
            if after.contains(x) {
                let i = choose|i: int| 0 <= i < after.len() && after[i] == x;
                if i < at {
                    assert(all[i] == x);
                } else if i > at {
                    assert(all[i - 1] == x);
                }
            }
        }
    }
}

/// The texts in order, each once.
pub fn sorted_distinct(texts: &Vec<String>) -> (r: Vec<String>)
    ensures
        ascending(views(r@)),
        forall|x: Seq<char>| #[trigger] views(r@).contains(x) <==> views(texts@).contains(x),
{
    let ghost all = views(texts@);
    let mut out: Vec<String> = Vec::new();
    let mut i: usize = 0;
    assert(all.take(0) =~= Seq::<Seq<char>>::empty());
    while i < texts.len()
        invariant
            i <= texts@.len(),
            all == views(texts@),
            ascending(views(out@)),
            forall|x: Seq<char>| #[trigger]
                views(out@).contains(x) <==> all.take(i as int).contains(x),
        decreases texts@.len() - i,
    {
        let ghost before = views(out@);
        insert_text(&mut out, texts[i].clone());
        proof {
            let w = texts@[i as int]@;
            assert(all.take(i + 1) =~= all.take(i as int).push(w));
            assert forall|x: Seq<char>| #[trigger] views(out@).contains(x) <==> all.take(
                i + 1,
            ).contains(x) by {
                let t = all.take(i as int);
                assert(views(out@).contains(x) <==> before.contains(x) || x == w);
                assert(before.contains(x) <==> t.contains(x));
                if t.contains(x) {
                    let k = choose|k: int| 0 <= k < t.len() && t[k] == x;
                    assert(all.take(i + 1)[k] == x);
                }
                if x == w {
                    assert(all.take(i + 1)[i as int] == x);
                }
                if all.take(i + 1).contains(x) {
                    let longer = all.take(i + 1);
                    let k = choose|k: int| 0 <= k < longer.len() && longer[k] == x;
                    if k < i {
                        assert(t[k] == x);
                    }
                }
            }
        }
        i += 1;
    }
    assert(all.take(i as int) =~= all);
    out
}

} // verus!
