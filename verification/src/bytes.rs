//! Byte strings: the small operations that the lexer and the validators share.
use vstd::prelude::*;

verus! {

/// ASCII whitespace: space, tab, line feed, form feed and carriage return.
pub open spec fn whitespace(c: u8) -> bool {
    c == ' ' as int || c == '\t' as int || c == '\n' as int || c == 12 || c == '\r' as int
}

/// There is whitespace somewhere in `s`.
pub open spec fn has_whitespace(s: Seq<u8>) -> bool {
    exists|i: int| 0 <= i < s.len() && whitespace(#[trigger] s[i])
}

/// The number of line feeds in `s`.
pub open spec fn newlines(s: Seq<u8>) -> nat
    decreases s.len(),
{
    if s.len() == 0 {
        0
    } else {
        newlines(s.drop_last()) + (if s.last() == '\n' as int {
            1nat
        } else {
            0nat
        })
    }
}

/// `s` without the whitespace at its start.
pub open spec fn trim_start(s: Seq<u8>) -> Seq<u8>
    decreases s.len(),
{
    if s.len() > 0 && whitespace(s[0]) {
        trim_start(s.skip(1))
    } else {
        s
    }
}

/// `s` without the whitespace at its end.
pub open spec fn trim_end(s: Seq<u8>) -> Seq<u8>
    decreases s.len(),
{
    if s.len() > 0 && whitespace(s.last()) {
        trim_end(s.drop_last())
    } else {
        s
    }
}

/// `s` without the whitespace at both ends.
pub open spec fn trim(s: Seq<u8>) -> Seq<u8> {
    trim_end(trim_start(s))
}

/// The first position at or after `from` whose byte is in the class, or the length of `s`.
pub open spec fn find(s: Seq<u8>, f: spec_fn(u8) -> bool, from: int) -> int
    decreases s.len() - from,
{
    if from >= s.len() {
        s.len() as int
    } else if f(s[from]) {
        from
    } else {
        find(s, f, from + 1)
    }
}

/// The class of one byte.
pub open spec fn byte(b: u8) -> spec_fn(u8) -> bool {
    |c: u8| c == b
}

/// The class of the whitespace.
pub open spec fn blank() -> spec_fn(u8) -> bool {
    |c: u8| whitespace(c)
}

pub proof fn lemma_find(s: Seq<u8>, f: spec_fn(u8) -> bool, from: int)
    requires
        0 <= from <= s.len(),
    ensures
        from <= find(s, f, from) <= s.len(),
        find(s, f, from) < s.len() ==> f(s[find(s, f, from)]),
        forall|i: int| from <= i < find(s, f, from) ==> !f(#[trigger] s[i]),
    decreases s.len() - from,
{
    if from < s.len() && !f(s[from]) {
        lemma_find(s, f, from + 1);
    }
}

/// What [`find`] returns is fixed by its properties.
pub proof fn lemma_find_is(s: Seq<u8>, f: spec_fn(u8) -> bool, from: int, at: int)
    requires
        0 <= from <= at <= s.len(),
        at < s.len() ==> f(s[at]),
        forall|i: int| from <= i < at ==> !f(#[trigger] s[i]),
    ensures
        find(s, f, from) == at,
{
    lemma_find(s, f, from);
    let k = find(s, f, from);
    if k < at {
        assert(!f(s[k]));
    }
    if at < k {
        assert(!f(s[at]));
    }
}

pub proof fn lemma_trim_start_len(s: Seq<u8>)
    ensures
        trim_start(s).len() <= s.len(),
    decreases s.len(),
{
    if s.len() > 0 && whitespace(s[0]) {
        lemma_trim_start_len(s.skip(1));
    }
}

pub proof fn lemma_newlines_push(s: Seq<u8>, from: int, to: int)
    requires
        0 <= from <= to < s.len(),
    ensures
        newlines(s.subrange(from, to + 1)) == newlines(s.subrange(from, to)) + (if s[to]
            == '\n' as int {
            1nat
        } else {
            0nat
        }),
{
    assert(s.subrange(from, to + 1).drop_last() =~= s.subrange(from, to));
}

/// ASCII whitespace.
pub fn is_whitespace(c: u8) -> (r: bool)
    ensures
        r == whitespace(c),
{
    c == ' ' as u8 || c == '\t' as u8 || c == '\n' as u8 || c == 12u8 || c == '\r' as u8
}

/// The bytes from `n` on.
pub fn tail(s: &[u8], n: usize) -> (r: &[u8])
    requires
        n <= s@.len(),
    ensures
        r@ == s@.skip(n as int),
{
    &s[n..s.len()]
}

/// The first `n` bytes.
pub fn head(s: &[u8], n: usize) -> (r: &[u8])
    requires
        n <= s@.len(),
    ensures
        r@ == s@.take(n as int),
{
    &s[0..n]
}

/// `s` and `t` hold the same bytes.
pub fn bytes_eq(s: &[u8], t: &[u8]) -> (r: bool)
    ensures
        r == (s@ == t@),
{
    if s.len() != t.len() {
        return false;
    }
    let mut i: usize = 0;
    while i < s.len()
        invariant
            s@.len() == t@.len(),
            i <= s@.len(),
            forall|j: int| 0 <= j < i ==> s@[j] == t@[j],
        decreases s@.len() - i,
    {
        if s[i] != t[i] {
            return false;
        }
        i += 1;
    }
    assert(s@ =~= t@);
    true
}

/// The first position of `b` at or after `from`, or the length of `s`.
pub fn find_byte(s: &[u8], b: u8, from: usize) -> (r: usize)
    requires
        from <= s@.len(),
    ensures
        r == find(s@, byte(b), from as int),
{
    let mut i: usize = from;
    while i < s.len()
        invariant
            from <= i <= s@.len(),
            find(s@, byte(b), from as int) == find(s@, byte(b), i as int),
        decreases s@.len() - i,
    {
        if s[i] == b {
            return i;
        }
        i += 1;
    }
    i
}

/// The first position of whitespace, or the length of `s`.
pub fn find_whitespace(s: &[u8]) -> (r: usize)
    ensures
        r == find(s@, blank(), 0),
{
    let mut i: usize = 0;
    while i < s.len()
        invariant
            i <= s@.len(),
            find(s@, blank(), 0) == find(s@, blank(), i as int),
        decreases s@.len() - i,
    {
        if is_whitespace(s[i]) {
            return i;
        }
        i += 1;
    }
    i
}

/// Remove the whitespace at the start.
pub fn trim_ascii_start(s: &[u8]) -> (r: &[u8])
    ensures
        r@ == trim_start(s@),
        r@.len() <= s@.len(),
{
    let mut i: usize = 0;
    assert(s@.skip(0) =~= s@);
    while i < s.len() && is_whitespace(s[i])
        invariant
            i <= s@.len(),
            trim_start(s@) == trim_start(s@.skip(i as int)),
        decreases s@.len() - i,
    {
        proof {
            assert(s@.skip(i as int)[0] == s@[i as int]);
            assert(s@.skip(i as int).skip(1) =~= s@.skip(i + 1));
        }
        i += 1;
    }
    assert(i < s@.len() ==> s@.skip(i as int)[0] == s@[i as int]);
    tail(s, i)
}

/// Remove the whitespace at the end.
pub fn trim_ascii_end(s: &[u8]) -> (r: &[u8])
    ensures
        r@ == trim_end(s@),
        r@.len() <= s@.len(),
{
    let mut n: usize = s.len();
    assert(s@.take(n as int) =~= s@);
    while n > 0 && is_whitespace(s[n - 1])
        invariant
            n <= s@.len(),
            trim_end(s@) == trim_end(s@.take(n as int)),
        decreases n,
    {
        proof {
            assert(s@.take(n as int).last() == s@[n - 1]);
            assert(s@.take(n as int).drop_last() =~= s@.take(n - 1));
        }
        n -= 1;
    }
    assert(n > 0 ==> s@.take(n as int).last() == s@[n - 1]);
    head(s, n)
}

/// Count the line feeds.
pub fn count_lines(text: &[u8]) -> (r: usize)
    ensures
        r == newlines(text@),
        r <= text@.len(),
{
    let mut n: usize = 0;
    let mut i: usize = 0;
    while i < text.len()
        invariant
            i <= text@.len(),
            n <= i,
            n == newlines(text@.take(i as int)),
        decreases text@.len() - i,
    {
        proof {
            assert(text@.take(i + 1).drop_last() =~= text@.take(i as int));
        }
        if text[i] == '\n' as u8 {
            n += 1;
        }
        i += 1;
    }
    assert(text@.take(i as int) =~= text@);
    n
}

} // verus!
