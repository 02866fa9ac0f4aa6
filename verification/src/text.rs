//! Text helpers over `Seq<char>`: the order the calendar sorts days by, the
//! date part of a timestamp, trimming of white space and prefixes.
use vstd::prelude::*;

verus! {

/// Lexicographic order on characters, the order in which `String`s compare.
pub open spec fn text_less(a: Seq<char>, b: Seq<char>) -> bool
    decreases a.len(),
{
    if b.len() == 0 {
        false
    } else if a.len() == 0 {
        true
    } else if a[0] != b[0] {
        (a[0] as int) < (b[0] as int)
    } else {
        text_less(a.drop_first(), b.drop_first())
    }
}

pub proof fn lemma_text_less_irreflexive(a: Seq<char>)
    ensures
        !text_less(a, a),
    decreases a.len(),
{
    if a.len() > 0 {
        lemma_text_less_irreflexive(a.drop_first());
    }
}

pub proof fn lemma_text_less_asymmetric(a: Seq<char>, b: Seq<char>)
    requires
        text_less(a, b),
    ensures
        !text_less(b, a),
    decreases a.len(),
{
    if a.len() > 0 && b.len() > 0 && a[0] == b[0] {
        lemma_text_less_asymmetric(a.drop_first(), b.drop_first());
    }
}

pub proof fn lemma_text_less_transitive(a: Seq<char>, b: Seq<char>, c: Seq<char>)
    requires
        text_less(a, b),
        text_less(b, c),
    ensures
        text_less(a, c),
    decreases a.len(),
{
    if a.len() > 0 && a[0] == b[0] && b[0] == c[0] {
        lemma_text_less_transitive(a.drop_first(), b.drop_first(), c.drop_first());
    }
}

pub proof fn lemma_text_less_total(a: Seq<char>, b: Seq<char>)
    requires
        a != b,
    ensures
        text_less(a, b) || text_less(b, a),
    decreases a.len(),
{
    if a.len() > 0 && b.len() > 0 && a[0] == b[0] {
        if a.drop_first() =~= b.drop_first() {
            assert forall|i: int| 0 <= i < a.len() implies a[i] == b[i] by {
                if i > 0 {
                    assert(a[i] == a.drop_first()[i - 1]);
                    assert(b[i] == b.drop_first()[i - 1]);
                }
            }
            assert(a =~= b);
        } else {
            lemma_text_less_total(a.drop_first(), b.drop_first());
        }
    } else if a.len() == 0 && b.len() == 0 {
        assert(a =~= b);
    } else if a.len() > 0 && b.len() > 0 {
        assert((a[0] as int) != (b[0] as int));
    }
}

/// Comparing texts that share the length of their first parts compares the
/// first parts, and the rest only when those are equal.
pub proof fn lemma_text_less_concat(a1: Seq<char>, b1: Seq<char>, a2: Seq<char>, b2: Seq<char>)
    requires
        a1.len() == a2.len(),
    ensures
        text_less(a1 + b1, a2 + b2) == if a1 == a2 {
            text_less(b1, b2)
        } else {
            text_less(a1, a2)
        },
    decreases a1.len(),
{
    if a1.len() == 0 {
        assert(a1 + b1 =~= b1);
        assert(a2 + b2 =~= b2);
        assert(a1 =~= a2);
    } else {
        assert((a1 + b1).drop_first() =~= a1.drop_first() + b1);
        assert((a2 + b2).drop_first() =~= a2.drop_first() + b2);
        lemma_text_less_concat(a1.drop_first(), b1, a2.drop_first(), b2);
        if a1[0] == a2[0] && a1.drop_first() =~= a2.drop_first() {
            assert forall|i: int| 0 <= i < a1.len() implies a1[i] == a2[i] by {
                if i > 0 {
                    assert(a1[i] == a1.drop_first()[i - 1]);
                    assert(a2[i] == a2.drop_first()[i - 1]);
                }
            }
            assert(a1 =~= a2);
        }
        if a1 == a2 {
            assert(a1.drop_first() =~= a2.drop_first());
        }
    }
}

proof fn lemma_skip_step<A>(s: Seq<A>, i: int)
    requires
        0 <= i < s.len(),
    ensures
        s.skip(i).drop_first() == s.skip(i + 1),
        s.skip(i)[0] == s[i],
        s.skip(i).len() > 0,
{
    assert(s.skip(i).drop_first() =~= s.skip(i + 1));
}

/// Whether `a` comes strictly before `b` in lexicographic order.
pub fn text_before(a: &str, b: &str) -> (r: bool)
    ensures
        r == text_less(a@, b@),
{
    let la = a.unicode_len();
    let lb = b.unicode_len();
    let mut i: usize = 0;
    assert(a@.skip(0) =~= a@);
    assert(b@.skip(0) =~= b@);
    while i < la && i < lb
        invariant
            la == a@.len(),
            lb == b@.len(),
            i <= la,
            i <= lb,
            text_less(a@, b@) == text_less(a@.skip(i as int), b@.skip(i as int)),
        decreases la - i,
    {
        let ca = a.get_char(i);
        let cb = b.get_char(i);
        proof {
            lemma_skip_step(a@, i as int);
            lemma_skip_step(b@, i as int);
        }
        if ca != cb {
            return ca < cb;
        }
        i = i + 1;
    }
    i < lb
}

/// The part of a timestamp before its first space: the whole text when it
/// holds no space.
pub open spec fn date_key(s: Seq<char>) -> Seq<char>
    decreases s.len(),
{
    if s.len() == 0 {
        s
    } else if s[0] == ' ' {
        Seq::empty()
    } else {
        seq![s[0]] + date_key(s.drop_first())
    }
}

/// The date part of a text made of a space-free part and a part that starts
/// with a space is the first part.
pub proof fn lemma_date_key_concat(a: Seq<char>, b: Seq<char>)
    requires
        forall|i: int| 0 <= i < a.len() ==> a[i] != ' ',
        b.len() > 0,
        b[0] == ' ',
    ensures
        date_key(a + b) == a,
    decreases a.len(),
{
    if a.len() == 0 {
        assert(a + b =~= b);
        assert(a =~= Seq::<char>::empty());
    } else {
        assert((a + b).drop_first() =~= a.drop_first() + b);
        lemma_date_key_concat(a.drop_first(), b);
        assert(seq![a[0]] + a.drop_first() =~= a);
    }
}

/// Texts of equal length where each character of `a` is at least the one of
/// `b` at the same place: `a` does not come before `b`.
pub proof fn lemma_not_less_pointwise(a: Seq<char>, b: Seq<char>)
    requires
        a.len() == b.len(),
        forall|i: int| 0 <= i < a.len() ==> (a[i] as int) >= (b[i] as int),
    ensures
        !text_less(a, b),
    decreases a.len(),
{
    if a.len() > 0 {
        assert forall|i: int| 0 <= i < a.drop_first().len() implies (a.drop_first()[i] as int) >= (
        b.drop_first()[i] as int) by {
            assert(a.drop_first()[i] == a[i + 1]);
            assert(b.drop_first()[i] == b[i + 1]);
        }
        lemma_not_less_pointwise(a.drop_first(), b.drop_first());
    }
}

/// The date part is the text up to the first space: a prefix of the
/// timestamp without spaces, followed by a space or by nothing.
pub proof fn lemma_date_key_is_text_before_space(s: Seq<char>)
    ensures
        date_key(s).len() <= s.len(),
        date_key(s) == s.take(date_key(s).len() as int),
        forall|i: int| 0 <= i < date_key(s).len() ==> #[trigger] s[i] != ' ',
        date_key(s).len() < s.len() ==> s[date_key(s).len() as int] == ' ',
    decreases s.len(),
{
    if s.len() > 0 && s[0] != ' ' {
        let t = s.drop_first();
        lemma_date_key_is_text_before_space(t);
        assert(date_key(s) =~= s.take(date_key(s).len() as int));
        assert forall|i: int| 0 <= i < date_key(s).len() implies #[trigger] s[i] != ' ' by {
            if i > 0 {
                assert(s[i] == t[i - 1]);
            }
        }
        if date_key(s).len() < s.len() {
            assert(s[date_key(s).len() as int] == t[date_key(t).len() as int]);
        }
    } else if s.len() > 0 {
        assert(s.take(0) =~= Seq::<char>::empty());
    } else {
        assert(s.take(0) =~= s);
    }
}

/// The date part of a `YYYY-MM-DD HH:MM:SS` timestamp: the text before the
/// first space.
pub fn date_part(s: &str) -> (r: String)
    ensures
        r@ == date_key(s@),
        r@.len() <= s@.len(),
        r@ == s@.take(r@.len() as int),
        forall|i: int| 0 <= i < r@.len() ==> #[trigger] s@[i] != ' ',
        r@.len() < s@.len() ==> s@[r@.len() as int] == ' ',
{
    proof {
        lemma_date_key_is_text_before_space(s@);
    }
    let n = s.unicode_len();
    let mut i: usize = 0;
    assert(s@.skip(0) =~= s@);
    assert(s@.take(0) + date_key(s@) =~= date_key(s@));
    loop
        invariant
            n == s@.len(),
            i <= n,
            date_key(s@) == s@.take(i as int) + date_key(s@.skip(i as int)),
        ensures
            i <= n,
            date_key(s@) == s@.take(i as int),
        decreases n - i,
    {
        if i == n {
            assert(s@.skip(i as int) =~= Seq::<char>::empty());
            assert(s@.take(i as int) + Seq::<char>::empty() =~= s@.take(i as int));
            break;
        }
        let c = s.get_char(i);
        proof {
            lemma_skip_step(s@, i as int);
        }
        if c == ' ' {
            assert(s@.take(i as int) + Seq::<char>::empty() =~= s@.take(i as int));
            break;
        }
        assert(s@.take(i as int) + (seq![c] + date_key(s@.skip(i + 1))) =~= s@.take(i + 1)
            + date_key(s@.skip(i + 1)));
        i = i + 1;
    }
    let part = s.substring_char(0, i);
    assert(part@ =~= s@.take(i as int));
    String::from_str(part)
}


/// The characters with the Unicode `White_Space` property (PropList.txt).
pub open spec fn is_white_space(c: char) -> bool {
    let u = c as int;
    ||| 0x09 <= u <= 0x0d
    ||| u == 0x20
    ||| u == 0x85
    ||| u == 0xa0
    ||| u == 0x1680
    ||| 0x2000 <= u <= 0x200a
    ||| u == 0x2028
    ||| u == 0x2029
    ||| u == 0x202f
    ||| u == 0x205f
    ||| u == 0x3000
}

/// Wraps `char::is_whitespace`, which its documentation defines as having the
/// Unicode `White_Space` property.
#[verifier::external_body]
fn char_is_whitespace(c: char) -> (r: bool)
    ensures
        r == is_white_space(c),
{
    c.is_whitespace()
}

/// `s` without its leading white space.
pub open spec fn trim_start(s: Seq<char>) -> Seq<char>
    decreases s.len(),
{
    if s.len() > 0 && is_white_space(s[0]) {
        trim_start(s.drop_first())
    } else {
        s
    }
}

/// `s` without its trailing white space.
pub open spec fn trim_end(s: Seq<char>) -> Seq<char>
    decreases s.len(),
{
    if s.len() > 0 && is_white_space(s.last()) {
        trim_end(s.drop_last())
    } else {
        s
    }
}

/// `s` without white space at either end, as `str::trim` gives it.
pub open spec fn trimmed(s: Seq<char>) -> Seq<char> {
    trim_end(trim_start(s))
}

proof fn lemma_trim_end_is_prefix(s: Seq<char>)
    ensures
        trim_end(s).len() <= s.len(),
        trim_end(s) =~= s.take(trim_end(s).len() as int),
        trim_end(s).len() > 0 ==> !is_white_space(trim_end(s).last()),
        forall|i: int| trim_end(s).len() <= i < s.len() ==> is_white_space(#[trigger] s[i]),
    decreases s.len(),
{
    if s.len() > 0 && is_white_space(s.last()) {
        lemma_trim_end_is_prefix(s.drop_last());
        assert forall|i: int| trim_end(s).len() <= i < s.len() implies is_white_space(
            #[trigger] s[i],
        ) by {
            if i < s.len() - 1 {
                assert(s.drop_last()[i] == s[i]);
            }
        }
    }
}

proof fn lemma_trim_start_is_suffix(s: Seq<char>)
    ensures
        trim_start(s).len() <= s.len(),
        trim_start(s) =~= s.skip(s.len() - trim_start(s).len()),
        trim_start(s).len() > 0 ==> !is_white_space(trim_start(s)[0]),
        forall|i: int| 0 <= i < s.len() - trim_start(s).len() ==> is_white_space(#[trigger] s[i]),
    decreases s.len(),
{
    if s.len() > 0 && is_white_space(s[0]) {
        lemma_trim_start_is_suffix(s.drop_first());
        assert forall|i: int| 0 <= i < s.len() - trim_start(s).len() implies is_white_space(
            #[trigger] s[i],
        ) by {
            if i > 0 {
                assert(s.drop_first()[i - 1] == s[i]);
            }
        }
    }
}

/// A trimmed text begins and ends with a character that is not white space.
pub proof fn lemma_trimmed_edges(s: Seq<char>)
    ensures
        trimmed(s).len() > 0 ==> !is_white_space(trimmed(s)[0]) && !is_white_space(
            trimmed(s).last(),
        ),
        trimmed(s).len() <= s.len(),
{
    let t = trim_start(s);
    lemma_trim_start_is_suffix(s);
    lemma_trim_end_is_prefix(t);
    if trimmed(s).len() > 0 {
        assert(trimmed(s)[0] == t[0]);
    }
}

/// Trimming twice trims no more than trimming once.
pub proof fn lemma_trimmed_idempotent(s: Seq<char>)
    ensures
        trimmed(trimmed(s)) == trimmed(s),
{
    let t = trimmed(s);
    lemma_trimmed_edges(s);
    if t.len() > 0 {
        assert(trim_start(t) == t);
        assert(trim_end(t) == t);
    } else {
        assert(trim_start(t) == t);
        assert(trim_end(t) == t);
    }
}

/// Trimming removes only surrounding white space: the trimmed text is the
/// part `s[a..b]` of `s`, everything before `a` and from `b` on is white
/// space, and when that part is not empty it begins and ends with a
/// character that is not.
pub proof fn lemma_trimmed_is_inner_part(s: Seq<char>)
    ensures
        exists|a: int, b: int|
            0 <= a <= b <= s.len() && trimmed(s) == s.subrange(a, b) && (forall|i: int|
                0 <= i < a ==> is_white_space(#[trigger] s[i])) && (forall|i: int|
                b <= i < s.len() ==> is_white_space(#[trigger] s[i])) && (a < b ==> !is_white_space(
                s[a],
            ) && !is_white_space(s[b - 1])),
{
    let t = trim_start(s);
    lemma_trim_start_is_suffix(s);
    lemma_trim_end_is_prefix(t);
    let a = s.len() - t.len();
    let b = a + trim_end(t).len();
    assert(trimmed(s) =~= s.subrange(a, b));
    assert forall|i: int| b <= i < s.len() implies is_white_space(#[trigger] s[i]) by {
        assert(t[i - a] == s[i]);
    }
    if a < b {
        assert(trimmed(s)[0] == s[a]);
        assert(t[0] == s[a]);
        assert(trimmed(s).last() == s[b - 1]);
    }
    assert(0 <= a <= b <= s.len() && trimmed(s) == s.subrange(a, b) && (forall|i: int|
        0 <= i < a ==> is_white_space(#[trigger] s[i])) && (forall|i: int|
        b <= i < s.len() ==> is_white_space(#[trigger] s[i])) && (a < b ==> !is_white_space(s[a])
        && !is_white_space(s[b - 1])));
}

/// A text without white space at either end is its own trim, whatever its
/// length.
pub proof fn lemma_trimmed_keeps_clean_text(s: Seq<char>)
    requires
        s.len() > 0 ==> !is_white_space(s[0]) && !is_white_space(s.last()),
    ensures
        trimmed(s) == s,
{
    assert(trim_start(s) == s);
    assert(trim_end(s) == s);
}

/// `s` with surrounding white space removed, as `str::trim` does.
pub fn trim(s: &str) -> (r: String)
    ensures
        r@ == trimmed(s@),
        exists|a: int, b: int|
            0 <= a <= b <= s@.len() && r@ == s@.subrange(a, b) && (forall|i: int|
                0 <= i < a ==> is_white_space(#[trigger] s@[i])) && (forall|i: int|
                b <= i < s@.len() ==> is_white_space(#[trigger] s@[i])) && (a < b
                ==> !is_white_space(s@[a]) && !is_white_space(s@[b - 1])),
{
    proof {
        lemma_trimmed_is_inner_part(s@);
    }
    let n = s.unicode_len();
    let mut a: usize = 0;
    assert(s@.skip(0) =~= s@);
    loop
        invariant
            n == s@.len(),
            a <= n,
            trim_start(s@) == trim_start(s@.skip(a as int)),
        ensures
            a <= n,
            trim_start(s@) == s@.skip(a as int),
        decreases n - a,
    {
        if a == n {
            assert(s@.skip(a as int) =~= Seq::<char>::empty());
            break;
        }
        let c = s.get_char(a);
        proof {
            lemma_skip_step(s@, a as int);
        }
        if !char_is_whitespace(c) {
            break;
        }
        a = a + 1;
    }
    let mut b: usize = n;
    assert(s@.skip(a as int) =~= s@.subrange(a as int, n as int));
    loop
        invariant
            n == s@.len(),
            a <= b <= n,
            trimmed(s@) == trim_end(s@.subrange(a as int, b as int)),
        ensures
            a <= b <= n,
            trimmed(s@) == s@.subrange(a as int, b as int),
        decreases b - a,
    {
        if b == a {
            break;
        }
        let c = s.get_char(b - 1);
        assert(s@.subrange(a as int, b as int).drop_last() =~= s@.subrange(a as int, b - 1));
        assert(s@.subrange(a as int, b as int).last() == c);
        if !char_is_whitespace(c) {
            break;
        }
        b = b - 1;
    }
    let part = s.substring_char(a, b);
    String::from_str(part)
}

/// `s` without its leading `/` characters.
pub open spec fn strip_leading_slashes(s: Seq<char>) -> Seq<char>
    decreases s.len(),
{
    if s.len() > 0 && s[0] == '/' {
        strip_leading_slashes(s.drop_first())
    } else {
        s
    }
}

/// Stripping leading slashes removes exactly the run of `/` at the start:
/// what is left is a suffix of `s` that does not start with `/`, and all
/// removed characters are `/`.
pub proof fn lemma_strip_leading_slashes_removes_only_slashes(s: Seq<char>)
    ensures
        strip_leading_slashes(s).len() <= s.len(),
        strip_leading_slashes(s) == s.skip(s.len() - strip_leading_slashes(s).len()),
        strip_leading_slashes(s).len() > 0 ==> strip_leading_slashes(s)[0] != '/',
        forall|i: int|
            0 <= i < s.len() - strip_leading_slashes(s).len() ==> #[trigger] s[i] == '/',
    decreases s.len(),
{
    if s.len() > 0 && s[0] == '/' {
        let t = s.drop_first();
        lemma_strip_leading_slashes_removes_only_slashes(t);
        assert(s.skip(s.len() - strip_leading_slashes(s).len()) =~= t.skip(
            t.len() - strip_leading_slashes(t).len(),
        ));
        assert forall|i: int|
            0 <= i < s.len() - strip_leading_slashes(s).len() implies #[trigger] s[i] == '/' by {
            if i > 0 {
                assert(s[i] == t[i - 1]);
            }
        }
    } else {
        assert(s.skip(0) =~= s);
    }
}

/// `s` without its leading `/` characters, as `str::trim_start_matches('/')`
/// gives it.
pub fn trim_leading_slashes(s: &str) -> (r: String)
    ensures
        r@ == strip_leading_slashes(s@),
{
    let n = s.unicode_len();
    let mut a: usize = 0;
    assert(s@.skip(0) =~= s@);
    loop
        invariant
            n == s@.len(),
            a <= n,
            strip_leading_slashes(s@) == strip_leading_slashes(s@.skip(a as int)),
        ensures
            a <= n,
            strip_leading_slashes(s@) == s@.skip(a as int),
        decreases n - a,
    {
        if a == n {
            assert(s@.skip(a as int) =~= Seq::<char>::empty());
            break;
        }
        let c = s.get_char(a);
        proof {
            lemma_skip_step(s@, a as int);
        }
        if c != '/' {
            break;
        }
        a = a + 1;
    }
    let part = s.substring_char(a, n);
    assert(part@ =~= s@.skip(a as int));
    String::from_str(part)
}

/// Whether `s` begins with `prefix`, as `str::starts_with` says.
pub fn begins_with(s: &str, prefix: &str) -> (r: bool)
    ensures
        r == prefix@.is_prefix_of(s@),
{
    let n = s.unicode_len();
    let k = prefix.unicode_len();
    if k > n {
        return false;
    }
    let mut i: usize = 0;
    while i < k
        invariant
            n == s@.len(),
            k == prefix@.len(),
            k <= n,
            i <= k,
            forall|j: int| 0 <= j < i ==> prefix@[j] == s@[j],
        decreases k - i,
    {
        if s.get_char(i) != prefix.get_char(i) {
            return false;
        }
        i = i + 1;
    }
    assert(prefix@ =~= s@.subrange(0, k as int));
    true
}

} // verus!
