use vstd::prelude::*;
use vstd::string::*;

verus! {

/// Decimal text of a natural number, most significant digit first.
pub open spec fn decimal_text(n: nat) -> Seq<char>
    decreases n,
{
    if n < 10 {
        seq![digit_char(n)]
    } else {
        decimal_text(n / 10).push(digit_char(n % 10))
    }
}

/// The character of a decimal digit.
pub open spec fn digit_char(d: nat) -> char {
    ((48 + d) as u32) as char
}

/// What follows the last `/` of a text; the whole text where it holds none.
pub open spec fn after_last_slash(s: Seq<char>) -> Seq<char>
    decreases s.len(),
{
    if s.len() == 0 {
        s
    } else if s.last() == '/' {
        Seq::empty()
    } else {
        after_last_slash(s.drop_last()).push(s.last())
    }
}

/// The path of member `key` below `path`: `path.key`, or `key` at the top.
pub open spec fn member_path(path: Seq<char>, key: Seq<char>) -> Seq<char> {
    if path.len() == 0 {
        key
    } else {
        path + seq!['.'] + key
    }
}

/// The path of item `i` below `path`: `path[i]`.
pub open spec fn item_path(path: Seq<char>, i: nat) -> Seq<char> {
    path + seq!['['] + decimal_text(i) + seq![']']
}

/// `p` is `path` or lies below it (`path.…` or `path[…`); every path lies
/// below the empty path.
pub open spec fn within_path(p: Seq<char>, path: Seq<char>) -> bool {
    ||| path.len() == 0
    ||| p == path
    ||| (path + seq!['.']).is_prefix_of(p)
    ||| (path + seq!['[']).is_prefix_of(p)
}

pub proof fn lemma_prefix_trans(a: Seq<char>, b: Seq<char>, c: Seq<char>)
    requires
        a.is_prefix_of(b),
        b.is_prefix_of(c),
    ensures
        a.is_prefix_of(c),
{
    assert(a =~= c.subrange(0, a.len() as int)) by {
        assert forall|k: int| 0 <= k < a.len() implies a[k] == c[k] by {
            assert(a[k] == b[k]);
            assert(b[k] == c[k]);
        }
    }
}

/// `q`, extended by one character, is a prefix of `q + [ch] + rest`.
proof fn lemma_prefix_of_extension(q: Seq<char>, ch: char, rest: Seq<char>)
    ensures
        (q + seq![ch]).is_prefix_of(q + seq![ch] + rest),
{
    assert((q + seq![ch]) =~= (q + seq![ch] + rest).subrange(0, q.len() + 1int));
}

/// A path within that of a member lies within the member's parent path.
pub proof fn lemma_within_member_path(p: Seq<char>, path: Seq<char>, key: Seq<char>)
    requires
        within_path(p, member_path(path, key)),
    ensures
        within_path(p, path),
{
    if path.len() > 0 {
        let c = member_path(path, key);
        lemma_prefix_of_extension(path, '.', key);
        if p != c {
            if (c + seq!['.']).is_prefix_of(p) {
                lemma_prefix_of_extension(c, '.', Seq::empty());
                assert(c + seq!['.'] + Seq::<char>::empty() =~= c + seq!['.']);
                assert(c.is_prefix_of(c + seq!['.'])) by {
                    assert(c =~= (c + seq!['.']).subrange(0, c.len() as int));
                }
                lemma_prefix_trans(c, c + seq!['.'], p);
            } else {
                assert(c.is_prefix_of(c + seq!['['])) by {
                    assert(c =~= (c + seq!['[']).subrange(0, c.len() as int));
                }
                lemma_prefix_trans(c, c + seq!['['], p);
            }
            lemma_prefix_trans(path + seq!['.'], c, p);
        }
    }
}

/// A path within that of an item lies within the array's path.
pub proof fn lemma_within_item_path(p: Seq<char>, path: Seq<char>, i: nat)
    requires
        within_path(p, item_path(path, i)),
    ensures
        within_path(p, path),
{
    if path.len() > 0 {
        let c = item_path(path, i);
        assert(c == path + seq!['['] + (decimal_text(i) + seq![']'])) by {
            assert(c =~= path + seq!['['] + (decimal_text(i) + seq![']']));
        }
        lemma_prefix_of_extension(path, '[', decimal_text(i) + seq![']']);
        if p != c {
            if (c + seq!['.']).is_prefix_of(p) {
                assert(c.is_prefix_of(c + seq!['.'])) by {
                    assert(c =~= (c + seq!['.']).subrange(0, c.len() as int));
                }
                lemma_prefix_trans(c, c + seq!['.'], p);
            } else {
                assert(c.is_prefix_of(c + seq!['['])) by {
                    assert(c =~= (c + seq!['[']).subrange(0, c.len() as int));
                }
                lemma_prefix_trans(c, c + seq!['['], p);
            }
            lemma_prefix_trans(path + seq!['['], c, p);
        }
    }
}

/// Whether two texts are the same.
pub fn text_eq(a: &str, b: &str) -> (r: bool)
    ensures
        r == (a@ == b@),
{
    let n = a.unicode_len();
    let m = b.unicode_len();
    if n != m {
        return false;
    }
    let mut i: usize = 0;
    while i < n
        invariant
            n == a@.len(),
            n == b@.len(),
            i <= n,
            forall|k: int| 0 <= k < i ==> a@[k] == b@[k],
        decreases n - i,
    {
        if a.get_char(i) != b.get_char(i) {
            return false;
        }
        i += 1;
    }
    assert(a@ =~= b@);
    true
}

/// Whether `s` begins with `prefix`.
pub fn has_prefix(s: &str, prefix: &str) -> (r: bool)
    ensures
        r == prefix@.is_prefix_of(s@),
{
    let n = s.unicode_len();
    let m = prefix.unicode_len();
    if m > n {
        return false;
    }
    let mut i: usize = 0;
    while i < m
        invariant
            n == s@.len(),
            m == prefix@.len(),
            m <= n,
            i <= m,
            forall|k: int| 0 <= k < i ==> prefix@[k] == s@[k],
        decreases m - i,
    {
        if s.get_char(i) != prefix.get_char(i) {
            return false;
        }
        i += 1;
    }
    assert(prefix@ =~= s@.subrange(0, m as int));
    true
}

proof fn lemma_after_last_slash_skip(s: Seq<char>, k: int)
    requires
        0 <= k <= s.len(),
        forall|j: int| k <= j < s.len() ==> s[j] != '/',
        k == 0 || s[k - 1] == '/',
    ensures
        after_last_slash(s) == s.skip(k),
    decreases s.len(),
{
    if s.len() == 0 {
        assert(s.skip(k) =~= s);
    } else if k == s.len() {
        assert(s.skip(k) =~= Seq::<char>::empty());
    } else {
        lemma_after_last_slash_skip(s.drop_last(), k);
        assert(s.skip(k) =~= s.drop_last().skip(k).push(s.last()));
    }
}

/// The last `/`-separated segment of `s`.
pub fn last_segment(s: &str) -> (r: &str)
    ensures
        r@ == after_last_slash(s@),
{
    let n = s.unicode_len();
    let mut k: usize = n;
    while k > 0
        invariant
            n == s@.len(),
            k <= n,
            forall|j: int| k <= j < n ==> s@[j] != '/',
        ensures
            k <= n,
            forall|j: int| k <= j < n ==> s@[j] != '/',
            k == 0 || s@[k - 1] == '/',
        decreases k,
    {
        if s.get_char(k - 1) == '/' {
            break;
        }
        k -= 1;
    }
    proof {
        lemma_after_last_slash_skip(s@, k as int);
        assert(s@.skip(k as int) =~= s@.subrange(k as int, n as int));
    }
    s.substring_char(k, n)
}

/// The text of one decimal digit.
fn digit_text(d: usize) -> (r: &'static str)
    requires
        d < 10,
    ensures
        r@ == seq![digit_char(d as nat)],
{
    let digits = "0123456789";
    proof {
        reveal_strlit("0123456789");
    }
    let r = digits.substring_char(d, d + 1);
    assert(r@ =~= seq![digit_char(d as nat)]);
    r
}

/// Appends the decimal text of `n` to `out`.
pub fn push_decimal(out: &mut String, n: usize)
    ensures
        final(out)@ == old(out)@ + decimal_text(n as nat),
    decreases n,
{
    if n >= 10 {
        push_decimal(out, n / 10);
    }
    out.append(digit_text(n % 10));
    assert(decimal_text(n as nat) =~= if n < 10 {
        seq![digit_char(n as nat)]
    } else {
        decimal_text((n / 10) as nat).push(digit_char((n % 10) as nat))
    });
}

/// The path of member `key` below `path`.
pub fn join_member_path(path: &str, key: &str) -> (r: String)
    ensures
        r@ == member_path(path@, key@),
{
    if path.unicode_len() == 0 {
        String::from_str(key)
    } else {
        let mut r = String::from_str(path);
        r.append(".");
        r.append(key);
        proof {
            reveal_strlit(".");
        }
        assert(r@ =~= member_path(path@, key@));
        r
    }
}

/// The path of item `i` below `path`.
pub fn join_item_path(path: &str, i: usize) -> (r: String)
    ensures
        r@ == item_path(path@, i as nat),
{
    let mut r = String::from_str(path);
    r.append("[");
    push_decimal(&mut r, i);
    r.append("]");
    proof {
        reveal_strlit("[");
        reveal_strlit("]");
    }
    assert(r@ =~= item_path(path@, i as nat));
    r
}

/// The text that `{:?}` writes for a string: the string in double quotes,
/// with the characters that std's `Debug` escapes escaped.
pub uninterp spec fn debug_quoted_text(s: Seq<char>) -> Seq<char>;

/// std's `Debug` formatting of a `str` (`format!("{:?}", s)`). The result
/// is named, not stated: the escaping rules are std's.
#[verifier::external_body]
fn debug_quoted(s: &str) -> (r: String)
    ensures
        r@ == debug_quoted_text(s@),
{
    format!("{:?}", s)
}

/// The quoted items joined by `, `.
pub open spec fn quoted_items(items: Seq<Seq<char>>) -> Seq<char>
    decreases items.len(),
{
    if items.len() == 0 {
        Seq::empty()
    } else if items.len() == 1 {
        debug_quoted_text(items[0])
    } else {
        quoted_items(items.drop_last()) + ", "@ + debug_quoted_text(items.last())
    }
}

/// The text that `{:?}` writes for a list of strings: `["a", "b"]`.
pub open spec fn debug_list_text(items: Seq<Seq<char>>) -> Seq<char> {
    "["@ + quoted_items(items) + "]"@
}

/// Writes a list of strings as `{:?}` does.
pub fn debug_list(items: &Vec<String>) -> (r: String)
    ensures
        r@ == debug_list_text(items.deep_view()),
{
    let ghost all = items.deep_view();
    let mut r = String::from_str("[");
    let mut k: usize = 0;
    while k < items.len()
        invariant
            k <= items@.len(),
            all == items.deep_view(),
            r@ == "["@ + quoted_items(all.take(k as int)),
        decreases items.len() - k,
    {
        if k > 0 {
            r.append(", ");
        }
        let q = debug_quoted(items[k].as_str());
        r.append(q.as_str());
        proof {
            let t = all.take(k + 1);
            assert(t.drop_last() =~= all.take(k as int));
            assert(t.last() == items@[k as int]@);
            if k == 0 {
                assert(all.take(0) =~= Seq::<Seq<char>>::empty());
            }
            assert(r@ =~= "["@ + quoted_items(t));
        }
        k += 1;
    }
    r.append("]");
    assert(all.take(items@.len() as int) =~= all);
    assert(r@ =~= debug_list_text(all));
    r
}

} // verus!
