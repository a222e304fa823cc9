//! Text as the parsers and the reports see it: a sequence of characters.
//! Every function here has a twin of the same meaning over `Seq<char>`, and
//! its contract says that the two agree.

use vstd::prelude::*;
use vstd::string::*;

verus! {

/// `String::push` adds the character at the end.
pub assume_specification[ String::push ](s: &mut String, c: char)
    ensures
        final(s)@ == old(s)@.push(c),
;

// ---------------------------------------------------------------------
// Characters.
// ---------------------------------------------------------------------

/// The Unicode `White_Space` property.
pub open spec fn space(c: char) -> bool {
    ||| '\u{9}' <= c <= '\u{d}'
    ||| c == ' '
    ||| c == '\u{85}'
    ||| c == '\u{a0}'
    ||| c == '\u{1680}'
    ||| '\u{2000}' <= c <= '\u{200a}'
    ||| c == '\u{2028}'
    ||| c == '\u{2029}'
    ||| c == '\u{202f}'
    ||| c == '\u{205f}'
    ||| c == '\u{3000}'
}

pub fn is_space(c: char) -> (r: bool)
    ensures
        r == space(c),
{
    ('\u{9}' <= c && c <= '\u{d}') || c == ' ' || c == '\u{85}' || c == '\u{a0}' || c == '\u{1680}'
        || ('\u{2000}' <= c && c <= '\u{200a}') || c == '\u{2028}' || c == '\u{2029}'
        || c == '\u{202f}' || c == '\u{205f}' || c == '\u{3000}'
}

pub open spec fn digit(c: char) -> bool {
    '0' <= c <= '9'
}

pub open spec fn capital(c: char) -> bool {
    'A' <= c <= 'Z'
}

pub open spec fn small(c: char) -> bool {
    'a' <= c <= 'z'
}

pub open spec fn lower_char(c: char) -> char {
    if capital(c) {
        (c as u8 + 32) as u8 as char
    } else {
        c
    }
}

pub open spec fn upper_char(c: char) -> char {
    if small(c) {
        (c as u8 - 32) as u8 as char
    } else {
        c
    }
}

pub fn to_lower_char(c: char) -> (r: char)
    ensures
        r == lower_char(c),
{
    if 'A' <= c && c <= 'Z' {
        let b: u8 = c as u8 + 32;
        b as char
    } else {
        c
    }
}

pub fn to_upper_char(c: char) -> (r: char)
    ensures
        r == upper_char(c),
{
    if 'a' <= c && c <= 'z' {
        let b: u8 = c as u8 - 32;
        b as char
    } else {
        c
    }
}

// ---------------------------------------------------------------------
// Between texts and characters.
// ---------------------------------------------------------------------

pub fn chars_of(s: &str) -> (v: Vec<char>)
    ensures
        v@ == s@,
{
    let mut v: Vec<char> = Vec::new();
    for c in it: s.chars()
        invariant
            it.seq() == s@,
            v@ == s@.take(it.index() as int),
    {
        v.push(c);
    }
    v
}

/// The characters from `from` up to `to` as a text.
pub fn cut(v: &Vec<char>, from: usize, to: usize) -> (s: String)
    requires
        from <= to <= v@.len(),
    ensures
        s@ == v@.subrange(from as int, to as int),
{
    let mut s = String::new();
    let mut i: usize = from;
    while i < to
        invariant
            from <= i <= to <= v@.len(),
            s@ == v@.subrange(from as int, i as int),
        decreases to - i,
    {
        s.push(v[i]);
        i += 1;
    }
    s
}

/// Two texts with the same characters.
pub fn same(a: &str, b: &str) -> (r: bool)
    ensures
        r == (a@ == b@),
{
    let x = a.to_owned();
    let y = b.to_owned();
    x == y
}

// ---------------------------------------------------------------------
// The order of texts.
// ---------------------------------------------------------------------

/// `a` stands before `b`: by the first character in which they differ, and
/// before every text that goes on from it.
pub open spec fn precedes(a: Seq<char>, b: Seq<char>) -> bool
    decreases a.len(),
{
    if b.len() == 0 {
        false
    } else if a.len() == 0 {
        true
    } else if a[0] != b[0] {
        a[0] < b[0]
    } else {
        precedes(a.drop_first(), b.drop_first())
    }
}

/// Of two texts that differ one stands before the other, and no text
/// before itself.
pub proof fn lemma_precedes_one_way(a: Seq<char>, b: Seq<char>)
    ensures
        !(precedes(a, b) && precedes(b, a)),
        a == b <==> !precedes(a, b) && !precedes(b, a),
    decreases a.len(),
{
    if a.len() == 0 || b.len() == 0 {
        if a.len() == 0 && b.len() == 0 {
            assert(a =~= b);
        }
    } else if a[0] == b[0] {
        lemma_precedes_one_way(a.drop_first(), b.drop_first());
        if a.drop_first() == b.drop_first() {
            assert(a =~= seq![a[0]] + a.drop_first());
            assert(b =~= seq![b[0]] + b.drop_first());
        }
    }
}

pub proof fn lemma_precedes_on(a: Seq<char>, b: Seq<char>, c: Seq<char>)
    requires
        precedes(a, b),
        precedes(b, c),
    ensures
        precedes(a, c),
    decreases a.len(),
{
    if a.len() > 0 && a[0] == b[0] && b[0] == c[0] {
        lemma_precedes_on(a.drop_first(), b.drop_first(), c.drop_first());
    }
}

/// `precedes`, computed.
pub fn stands_before(a: &str, b: &str) -> (r: bool)
    ensures
        r == precedes(a@, b@),
{
    let x = chars_of(a);
    let y = chars_of(b);
    let mut i: usize = 0;
    proof {
        assert(x@.skip(0) =~= a@);
        assert(y@.skip(0) =~= b@);
    }
    while i < x.len() && i < y.len()
        invariant
            i <= x@.len(),
            i <= y@.len(),
            precedes(a@, b@) == precedes(x@.skip(i as int), y@.skip(i as int)),
        decreases x@.len() - i,
    {
        if x[i] != y[i] {
            return x[i] < y[i];
        }
        proof {
            assert(x@.skip(i as int).drop_first() =~= x@.skip(i + 1));
            assert(y@.skip(i as int).drop_first() =~= y@.skip(i + 1));
        }
        i += 1;
    }
    i < y.len()
}

// ---------------------------------------------------------------------
// Finding a character.
// ---------------------------------------------------------------------

pub open spec fn one(c: char) -> spec_fn(char) -> bool {
    |x: char| x == c
}

pub open spec fn spaces() -> spec_fn(char) -> bool {
    |x: char| space(x)
}

/// The place of the first character that is `p`; the length without one.
pub open spec fn first(s: Seq<char>, p: spec_fn(char) -> bool) -> nat
    decreases s.len(),
{
    if s.len() == 0 || p(s[0]) {
        0
    } else {
        1 + first(s.drop_first(), p)
    }
}

pub proof fn lemma_first(s: Seq<char>, p: spec_fn(char) -> bool)
    ensures
        first(s, p) <= s.len(),
        first(s, p) < s.len() ==> p(s[first(s, p) as int]),
        forall|i: int| 0 <= i < first(s, p) ==> !p(#[trigger] s[i]),
    decreases s.len(),
{
    if s.len() > 0 && !p(s[0]) {
        lemma_first(s.drop_first(), p);
        assert forall|i: int| 0 <= i < first(s, p) implies !p(#[trigger] s[i]) by {
            if i > 0 {
                assert(s[i] == s.drop_first()[i - 1]);
            }
        }
    }
}

/// What `first` is, found without recursion.
pub proof fn lemma_first_is(s: Seq<char>, p: spec_fn(char) -> bool, n: nat)
    requires
        n <= s.len(),
        n < s.len() ==> p(s[n as int]),
        forall|i: int| 0 <= i < n ==> !p(#[trigger] s[i]),
    ensures
        first(s, p) == n,
    decreases s.len(),
{
    if n > 0 {
        assert(!p(s[0]));
        assert forall|i: int| 0 <= i < n - 1 implies !p(#[trigger] s.drop_first()[i]) by {
            assert(s.drop_first()[i] == s[i + 1]);
        }
        lemma_first_is(s.drop_first(), p, (n - 1) as nat);
    }
}

/// The first `c` at or after `from`; the length without one.
pub fn find(v: &Vec<char>, from: usize, c: char) -> (n: usize)
    requires
        from <= v@.len(),
    ensures
        from <= n <= v@.len(),
        n - from == first(v@.skip(from as int), one(c)),
        n < v@.len() ==> v@[n as int] == c,
{
    let mut n: usize = from;
    while n < v.len() && v[n] != c
        invariant
            from <= n <= v@.len(),
            forall|i: int| 0 <= i < n - from ==> v@.skip(from as int)[i] != c,
        decreases v@.len() - n,
    {
        n += 1;
    }
    proof {
        lemma_first_is(v@.skip(from as int), one(c), (n - from) as nat);
    }
    n
}

/// The first white space at or after `from`; the length without one.
pub fn find_space(v: &Vec<char>, from: usize) -> (n: usize)
    requires
        from <= v@.len(),
    ensures
        from <= n <= v@.len(),
        n - from == first(v@.skip(from as int), spaces()),
        n < v@.len() ==> space(v@[n as int]),
{
    let mut n: usize = from;
    while n < v.len() && !is_space(v[n])
        invariant
            from <= n <= v@.len(),
            forall|i: int| 0 <= i < n - from ==> !space(#[trigger] v@.skip(from as int)[i]),
        decreases v@.len() - n,
    {
        n += 1;
    }
    proof {
        lemma_first_is(v@.skip(from as int), spaces(), (n - from) as nat);
    }
    n
}

// ---------------------------------------------------------------------
// Pieces between separators.
// ---------------------------------------------------------------------

/// The pieces between the characters that are `p`; one more than those.
pub open spec fn pieces(s: Seq<char>, p: spec_fn(char) -> bool) -> Seq<Seq<char>>
    decreases s.len(),
{
    proof {
        lemma_first(s, p);
    }
    let n = first(s, p) as int;
    if n >= s.len() {
        seq![s]
    } else {
        seq![s.take(n)] + pieces(s.skip(n + 1), p)
    }
}

/// `str::split` by one character.
pub open spec fn split(s: Seq<char>, c: char) -> Seq<Seq<char>> {
    pieces(s, one(c))
}

/// The pieces that are not empty.
pub open spec fn filled(s: Seq<Seq<char>>) -> Seq<Seq<char>>
    decreases s.len(),
{
    if s.len() == 0 {
        seq![]
    } else if s[0].len() == 0 {
        filled(s.drop_first())
    } else {
        seq![s[0]] + filled(s.drop_first())
    }
}

/// `str::split_whitespace`.
pub open spec fn words(s: Seq<char>) -> Seq<Seq<char>> {
    filled(pieces(s, spaces()))
}

/// A line without the carriage return before its line feed.
pub open spec fn chomp(s: Seq<char>) -> Seq<char> {
    if s.len() > 0 && s.last() == '\r' {
        s.drop_last()
    } else {
        s
    }
}

/// `str::lines`: the last line may lack its line feed.
pub open spec fn lines(s: Seq<char>) -> Seq<Seq<char>>
    decreases s.len(),
{
    proof {
        lemma_first(s, one('\n'));
    }
    let n = first(s, one('\n')) as int;
    if s.len() == 0 {
        seq![]
    } else if n >= s.len() {
        seq![s]
    } else {
        seq![chomp(s.take(n))] + lines(s.skip(n + 1))
    }
}

/// `str::split_once`: around the first `c`.
pub open spec fn around(s: Seq<char>, c: char) -> Option<(Seq<char>, Seq<char>)> {
    let n = first(s, one(c)) as int;
    if n < s.len() {
        Some((s.take(n), s.skip(n + 1)))
    } else {
        None
    }
}

/// The characters of every text.
pub open spec fn seen(v: Seq<String>) -> Seq<Seq<char>> {
    Seq::new(v.len(), |i: int| v[i]@)
}

pub proof fn lemma_seen_push(v: Seq<String>, s: String)
    ensures
        seen(v.push(s)) == seen(v).push(s@),
{
    assert(seen(v.push(s)) =~= seen(v).push(s@));
}

pub fn split_of(s: &str, c: char) -> (r: Vec<String>)
    ensures
        seen(r@) == split(s@, c),
{
    let v = chars_of(s);
    let mut r: Vec<String> = Vec::new();
    let mut at: usize = 0;
    proof {
        assert(v@.skip(0) =~= v@);
        assert(seen(r@) + split(v@.skip(0), c) =~= split(s@, c));
    }
    loop
        invariant
            v@ == s@,
            at <= v@.len(),
            seen(r@) + split(v@.skip(at as int), c) == split(s@, c),
        decreases v@.len() - at,
    {
        let n = find(&v, at, c);
        let ghost rest = v@.skip(at as int);
        let ghost before = r@;
        let piece = cut(&v, at, n);
        r.push(piece);
        proof {
            lemma_seen_push(before, piece);
            assert(piece@ =~= rest.take(n - at));
        }
        if n == v.len() {
            proof {
                assert(rest.take(n - at) =~= rest);
                assert(seen(before) + seq![rest] =~= seen(r@));
            }
            return r;
        }
        proof {
            assert(rest.skip(n - at + 1) =~= v@.skip(n + 1));
            assert(seen(before) + (seq![piece@] + split(v@.skip(n + 1), c)) =~= seen(r@) + split(
                v@.skip(n + 1),
                c,
            ));
        }
        at = n + 1;
    }
}

pub fn words_of(s: &str) -> (r: Vec<String>)
    ensures
        seen(r@) == words(s@),
{
    let v = chars_of(s);
    let mut r: Vec<String> = Vec::new();
    let mut at: usize = 0;
    proof {
        assert(v@.skip(0) =~= v@);
        assert(seen(r@) + words(v@.skip(0)) =~= words(s@));
    }
    loop
        invariant
            v@ == s@,
            at <= v@.len(),
            seen(r@) + words(v@.skip(at as int)) == words(s@),
        decreases v@.len() - at,
    {
        let n = find_space(&v, at);
        let ghost rest = v@.skip(at as int);
        let ghost before = r@;
        let ghost tail = pieces(v@.skip(n + 1), spaces());
        proof {
            assert(v@.subrange(at as int, n as int) =~= rest.take(n - at));
            if n < v@.len() {
                assert(rest.skip(n - at + 1) =~= v@.skip(n + 1));
                assert((seq![rest.take(n - at)] + tail).drop_first() =~= tail);
            } else {
                assert(rest.take(n - at) =~= rest);
                assert(seq![rest].drop_first() =~= seq![]);
                assert(filled(seq![]) =~= seq![]);
            }
        }
        if at < n {
            let word = cut(&v, at, n);
            r.push(word);
            proof {
                lemma_seen_push(before, word);
                if n < v@.len() {
                    assert(seen(before) + (seq![word@] + filled(tail)) =~= seen(r@) + filled(tail));
                } else {
                    assert(seen(before) + (seq![word@] + seq![]) =~= seen(r@));
                }
            }
        } else {
            proof {
                if n >= v@.len() {
                    assert(seen(before) + seq![] =~= seen(r@));
                }
            }
        }
        if n == v.len() {
            return r;
        }
        at = n + 1;
    }
}

pub fn lines_of(s: &str) -> (r: Vec<String>)
    ensures
        seen(r@) == lines(s@),
{
    let v = chars_of(s);
    let mut r: Vec<String> = Vec::new();
    let mut at: usize = 0;
    proof {
        assert(v@.skip(0) =~= v@);
        assert(seen(r@) + lines(v@.skip(0)) =~= lines(s@));
    }
    while at < v.len()
        invariant
            v@ == s@,
            at <= v@.len(),
            seen(r@) + lines(v@.skip(at as int)) == lines(s@),
        decreases v@.len() - at,
    {
        let n = find(&v, at, '\n');
        let ghost rest = v@.skip(at as int);
        let ghost before = r@;
        if n == v.len() {
            let line = cut(&v, at, n);
            r.push(line);
            proof {
                lemma_seen_push(before, line);
                assert(line@ =~= rest);
                assert(seen(before) + seq![rest] =~= seen(r@));
            }
            return r;
        }
        let end: usize = if at < n && v[n - 1] == '\r' {
            n - 1
        } else {
            n
        };
        let line = cut(&v, at, end);
        r.push(line);
        proof {
            lemma_seen_push(before, line);
            assert(line@ =~= chomp(rest.take(n - at)));
            assert(rest.skip(n - at + 1) =~= v@.skip(n + 1));
            assert(seen(before) + (seq![line@] + lines(v@.skip(n + 1))) =~= seen(r@) + lines(
                v@.skip(n + 1),
            ));
        }
        at = n + 1;
    }
    proof {
        assert(v@.skip(at as int) =~= seq![]);
        assert(seen(r@) + seq![] =~= seen(r@));
    }
    r
}

pub fn around_of(s: &str, c: char) -> (r: Option<(String, String)>)
    ensures
        match r {
            Some((a, b)) => around(s@, c) == Some((a@, b@)),
            None => around(s@, c) is None,
        },
{
    let v = chars_of(s);
    let n = find(&v, 0, c);
    proof {
        assert(v@.skip(0) =~= v@);
    }
    if n == v.len() {
        return None;
    }
    let a = cut(&v, 0, n);
    let b = cut(&v, n + 1, v.len());
    proof {
        assert(a@ =~= s@.take(n as int));
        assert(b@ =~= s@.skip(n + 1));
    }
    Some((a, b))
}

/// `str::rsplit_once`: around the last `c`.
pub open spec fn around_last(s: Seq<char>, c: char) -> Option<(Seq<char>, Seq<char>)>
    decreases s.len(),
{
    if s.len() == 0 {
        None
    } else if s.last() == c {
        Some((s.drop_last(), seq![]))
    } else {
        match around_last(s.drop_last(), c) {
            Some((a, b)) => Some((a, b.push(s.last()))),
            None => None,
        }
    }
}

pub fn around_last_of(s: &str, c: char) -> (r: Option<(String, String)>)
    ensures
        match r {
            Some((a, b)) => around_last(s@, c) == Some((a@, b@)),
            None => around_last(s@, c) is None,
        },
{
    let v = chars_of(s);
    let mut n: usize = v.len();
    proof {
        assert(s@.take(n as int) =~= s@);
        assert(forall|b: Seq<char>| b + s@.skip(n as int) =~= b);
    }
    while n > 0 && v[n - 1] != c
        invariant
            n <= v@.len(),
            v@ == s@,
            around_last(s@, c) == (match around_last(s@.take(n as int), c) {
                Some((a, b)) => Some((a, b + s@.skip(n as int))),
                None => None,
            }),
        decreases n,
    {
        proof {
            let t = s@.take(n as int);
            assert(t.drop_last() =~= s@.take(n - 1));
            assert(t.last() == s@[n - 1]);
            match around_last(t.drop_last(), c) {
                Some((a, b)) => {
                    assert(b.push(t.last()) + s@.skip(n as int) =~= b + s@.skip(n - 1));
                },
                None => {},
            }
        }
        n -= 1;
    }
    proof {
        assert(s@.take(0) =~= seq![]);
    }
    if n == 0 {
        return None;
    }
    let a = cut(&v, 0, n - 1);
    let b = cut(&v, n, v.len());
    proof {
        assert(a@ =~= s@.take(n as int).drop_last());
        assert(seq![] + s@.skip(n as int) =~= b@);
    }
    Some((a, b))
}

// ---------------------------------------------------------------------
// The edges of a text.
// ---------------------------------------------------------------------

/// What may be taken off the edges of a text.
#[derive(Clone, Copy)]
pub enum Edge {
    Space,
    Dot,
    /// Either square bracket.
    Bracket,
}

pub open spec fn edge(e: Edge) -> spec_fn(char) -> bool {
    match e {
        Edge::Space => spaces(),
        Edge::Dot => one('.'),
        Edge::Bracket => |x: char| x == '[' || x == ']',
    }
}

fn is_edge(e: Edge, c: char) -> (r: bool)
    ensures
        r == edge(e)(c),
{
    match e {
        Edge::Space => is_space(c),
        Edge::Dot => c == '.',
        Edge::Bracket => c == '[' || c == ']',
    }
}

pub open spec fn strip_start(s: Seq<char>, p: spec_fn(char) -> bool) -> Seq<char>
    decreases s.len(),
{
    if s.len() > 0 && p(s[0]) {
        strip_start(s.drop_first(), p)
    } else {
        s
    }
}

pub open spec fn strip_end(s: Seq<char>, p: spec_fn(char) -> bool) -> Seq<char>
    decreases s.len(),
{
    if s.len() > 0 && p(s.last()) {
        strip_end(s.drop_last(), p)
    } else {
        s
    }
}

/// `str::trim`.
pub open spec fn trim(s: Seq<char>) -> Seq<char> {
    strip_end(strip_start(s, spaces()), spaces())
}

pub fn strip_end_of(s: &str, e: Edge) -> (r: String)
    ensures
        r@ == strip_end(s@, edge(e)),
{
    let v = chars_of(s);
    let mut n: usize = v.len();
    proof {
        assert(s@.take(n as int) =~= s@);
    }
    while n > 0 && is_edge(e, v[n - 1])
        invariant
            n <= v@.len(),
            v@ == s@,
            strip_end(s@.take(n as int), edge(e)) == strip_end(s@, edge(e)),
        decreases n,
    {
        proof {
            assert(s@.take(n as int).drop_last() =~= s@.take(n - 1));
        }
        n -= 1;
    }
    let r = cut(&v, 0, n);
    proof {
        assert(r@ =~= s@.take(n as int));
    }
    r
}

pub fn strip_start_of(s: &str, e: Edge) -> (r: String)
    ensures
        r@ == strip_start(s@, edge(e)),
{
    let v = chars_of(s);
    let mut n: usize = 0;
    proof {
        assert(s@.skip(0) =~= s@);
    }
    while n < v.len() && is_edge(e, v[n])
        invariant
            n <= v@.len(),
            v@ == s@,
            strip_start(s@.skip(n as int), edge(e)) == strip_start(s@, edge(e)),
        decreases v@.len() - n,
    {
        proof {
            assert(s@.skip(n as int).drop_first() =~= s@.skip(n + 1));
        }
        n += 1;
    }
    let r = cut(&v, n, v.len());
    proof {
        assert(r@ =~= s@.skip(n as int));
    }
    r
}

pub fn trim_of(s: &str) -> (r: String)
    ensures
        r@ == trim(s@),
{
    let a = strip_start_of(s, Edge::Space);
    strip_end_of(a.as_str(), Edge::Space)
}

pub open spec fn starts(s: Seq<char>, p: Seq<char>) -> bool {
    p.len() <= s.len() && s.take(p.len() as int) == p
}

pub open spec fn ends(s: Seq<char>, p: Seq<char>) -> bool {
    p.len() <= s.len() && s.skip(s.len() - p.len()) == p
}

/// `p` stands somewhere in `s`.
pub open spec fn has(s: Seq<char>, p: Seq<char>) -> bool {
    exists|i: int| 0 <= i <= s.len() && starts(#[trigger] s.skip(i), p)
}

/// `str::strip_prefix`.
pub open spec fn after(s: Seq<char>, p: Seq<char>) -> Option<Seq<char>> {
    if starts(s, p) {
        Some(s.skip(p.len() as int))
    } else {
        None
    }
}

/// Whether `p` stands in `v` at `at`.
fn stands(v: &Vec<char>, at: usize, p: &Vec<char>) -> (r: bool)
    requires
        at <= v@.len(),
    ensures
        r == starts(v@.skip(at as int), p@),
{
    if p.len() > v.len() - at {
        return false;
    }
    let mut i: usize = 0;
    while i < p.len()
        invariant
            i <= p@.len(),
            at + p.len() <= v.len(),
            forall|j: int| 0 <= j < i ==> p@[j] == v@.skip(at as int)[j],
        decreases p@.len() - i,
    {
        if p[i] != v[at + i] {
            proof {
                assert(v@.skip(at as int).take(p@.len() as int)[i as int] != p@[i as int]);
            }
            return false;
        }
        i += 1;
    }
    proof {
        assert(v@.skip(at as int).take(p@.len() as int) =~= p@);
    }
    true
}

pub fn starts_of(s: &str, p: &str) -> (r: bool)
    ensures
        r == starts(s@, p@),
{
    let v = chars_of(s);
    let w = chars_of(p);
    proof {
        assert(v@.skip(0) =~= s@);
    }
    stands(&v, 0, &w)
}

pub fn ends_of(s: &str, p: &str) -> (r: bool)
    ensures
        r == ends(s@, p@),
{
    let v = chars_of(s);
    let w = chars_of(p);
    if w.len() > v.len() {
        return false;
    }
    let at: usize = v.len() - w.len();
    let r = stands(&v, at, &w);
    proof {
        let t = s@.skip(at as int);
        assert(t.take(w@.len() as int) =~= t);
    }
    r
}

pub fn has_of(s: &str, p: &str) -> (r: bool)
    ensures
        r == has(s@, p@),
{
    let v = chars_of(s);
    let w = chars_of(p);
    let mut i: usize = 0;
    loop
        invariant
            v@ == s@,
            w@ == p@,
            i <= v@.len(),
            forall|j: int| 0 <= j < i ==> !starts(#[trigger] s@.skip(j), p@),
        decreases v@.len() - i,
    {
        if stands(&v, i, &w) {
            return true;
        }
        if i == v.len() {
            return false;
        }
        i += 1;
    }
}

pub fn after_of(s: &str, p: &str) -> (r: Option<String>)
    ensures
        match r {
            Some(t) => after(s@, p@) == Some(t@),
            None => after(s@, p@) is None,
        },
{
    if !starts_of(s, p) {
        return None;
    }
    let v = chars_of(s);
    let w = chars_of(p);
    let t = cut(&v, w.len(), v.len());
    proof {
        assert(t@ =~= s@.skip(p@.len() as int));
    }
    Some(t)
}

// ---------------------------------------------------------------------
// Case.
// ---------------------------------------------------------------------

/// `str::to_ascii_lowercase`.
pub open spec fn lower(s: Seq<char>) -> Seq<char> {
    Seq::new(s.len(), |i: int| lower_char(s[i]))
}

/// `str::to_ascii_uppercase`.
pub open spec fn upper(s: Seq<char>) -> Seq<char> {
    Seq::new(s.len(), |i: int| upper_char(s[i]))
}

pub fn lower_of(s: &str) -> (r: String)
    ensures
        r@ == lower(s@),
{
    let mut r = String::new();
    for c in it: s.chars()
        invariant
            it.seq() == s@,
            r@ =~= lower(s@).take(it.index() as int),
    {
        r.push(to_lower_char(c));
    }
    r
}

pub fn upper_of(s: &str) -> (r: String)
    ensures
        r@ == upper(s@),
{
    let mut r = String::new();
    for c in it: s.chars()
        invariant
            it.seq() == s@,
            r@ =~= upper(s@).take(it.index() as int),
    {
        r.push(to_upper_char(c));
    }
    r
}

// ---------------------------------------------------------------------
// Joining.
// ---------------------------------------------------------------------

/// The texts one after another with `sep` between them.
pub open spec fn join(v: Seq<Seq<char>>, sep: Seq<char>) -> Seq<char>
    decreases v.len(),
{
    if v.len() == 0 {
        seq![]
    } else if v.len() == 1 {
        v[0]
    } else {
        join(v.drop_last(), sep) + sep + v.last()
    }
}

pub fn join_of(v: &Vec<String>, sep: &str) -> (r: String)
    ensures
        r@ == join(seen(v@), sep@),
{
    let mut r = String::new();
    let mut i: usize = 0;
    proof {
        assert(seen(v@).take(0) =~= seq![]);
    }
    while i < v.len()
        invariant
            i <= v@.len(),
            r@ == join(seen(v@).take(i as int), sep@),
        decreases v@.len() - i,
    {
        if i > 0 {
            r.append(sep);
        }
        r.append(v[i].as_str());
        proof {
            let t = seen(v@).take(i + 1);
            assert(t.drop_last() =~= seen(v@).take(i as int));
            if i == 0 {
                assert(seq![] + v@[0]@ =~= v@[0]@);
            }
        }
        i += 1;
    }
    proof {
        assert(seen(v@).take(i as int) =~= seen(v@));
    }
    r
}

/// Every text followed by a line feed.
pub open spec fn paged(v: Seq<Seq<char>>) -> Seq<char>
    decreases v.len(),
{
    if v.len() == 0 {
        seq![]
    } else {
        paged(v.drop_last()) + v.last() + "\n"@
    }
}

pub fn page_of(v: &Vec<String>) -> (r: String)
    ensures
        r@ == paged(seen(v@)),
{
    let mut r = String::new();
    let mut i: usize = 0;
    proof {
        assert(seen(v@).take(0) =~= seq![]);
    }
    while i < v.len()
        invariant
            i <= v@.len(),
            r@ == paged(seen(v@).take(i as int)),
        decreases v@.len() - i,
    {
        r.append(v[i].as_str());
        r.append("\n");
        proof {
            let t = seen(v@).take(i + 1);
            assert(t.drop_last() =~= seen(v@).take(i as int));
            assert(t.last() == v@[i as int]@);
        }
        i += 1;
    }
    proof {
        assert(seen(v@).take(i as int) =~= seen(v@));
    }
    r
}

pub proof fn lemma_paged_cons(x: Seq<char>, v: Seq<Seq<char>>)
    ensures
        paged(seq![x] + v) == x + "\n"@ + paged(v),
    decreases v.len(),
{
    let w = seq![x] + v;
    if v.len() == 0 {
        assert(w.drop_last() =~= seq![]);
        assert(w.last() == x);
        assert(paged(seq![]) =~= seq![]);
        assert(paged(w) =~= x + "\n"@ + paged(v));
    } else {
        lemma_paged_cons(x, v.drop_last());
        assert(w.drop_last() =~= seq![x] + v.drop_last());
        assert(w.last() == v.last());
        assert(paged(w) =~= x + "\n"@ + paged(v));
    }
}

/// A line, its line feed, and the rest.
pub proof fn lemma_lines_cons(x: Seq<char>, rest: Seq<char>)
    requires
        !x.contains('\n'),
    ensures
        lines(x + "\n"@ + rest) == seq![chomp(x)] + lines(rest),
{
    reveal_strlit("\n");
    let s = x + "\n"@ + rest;
    assert forall|i: int| 0 <= i < x.len() implies !one('\n')(#[trigger] s[i]) by {
        assert(s[i] == x[i]);
    }
    lemma_first_is(s, one('\n'), x.len());
    assert(s.take(x.len() as int) =~= x);
    assert(s.skip(x.len() as int + 1) =~= rest);
}

/// A text that stays one line when a line feed is put behind it.
pub open spec fn liny(s: Seq<char>) -> bool {
    !s.contains('\n') && chomp(s) == s
}

/// Lines written are the lines read.
pub proof fn lemma_lines_paged(v: Seq<Seq<char>>)
    requires
        forall|i: int| 0 <= i < v.len() ==> liny(#[trigger] v[i]),
    ensures
        lines(paged(v)) == v,
    decreases v.len(),
{
    if v.len() > 0 {
        let rest = v.drop_first();
        assert forall|i: int| 0 <= i < rest.len() implies liny(#[trigger] rest[i]) by {
            assert(rest[i] == v[i + 1]);
        }
        lemma_lines_paged(rest);
        assert(v =~= seq![v[0]] + rest);
        lemma_paged_cons(v[0], rest);
        assert(liny(v[0]));
        lemma_lines_cons(v[0], paged(rest));
    }
}

// ---------------------------------------------------------------------
// Words put side by side.
// ---------------------------------------------------------------------

proof fn lemma_pieces_add(a: Seq<char>, c: char, b: Seq<char>, p: spec_fn(char) -> bool)
    requires
        p(c),
    ensures
        pieces(a + seq![c] + b, p) == pieces(a, p) + pieces(b, p),
    decreases a.len(),
{
    let s = a + seq![c] + b;
    let n = first(a, p);
    lemma_first(a, p);
    if n >= a.len() {
        assert forall|i: int| 0 <= i < a.len() implies !p(#[trigger] s[i]) by {
            assert(s[i] == a[i]);
        }
        assert(s[a.len() as int] == c);
        lemma_first_is(s, p, a.len());
        assert(s.take(a.len() as int) =~= a);
        assert(s.skip(a.len() as int + 1) =~= b);
    } else {
        assert forall|i: int| 0 <= i < n implies !p(#[trigger] s[i]) by {
            assert(s[i] == a[i]);
        }
        assert(s[n as int] == a[n as int]);
        lemma_first_is(s, p, n);
        let rest = a.skip(n as int + 1);
        lemma_pieces_add(rest, c, b, p);
        assert(s.take(n as int) =~= a.take(n as int));
        assert(s.skip(n as int + 1) =~= rest + seq![c] + b);
        assert(pieces(s, p) =~= pieces(a, p) + pieces(b, p));
    }
}

proof fn lemma_filled_add(x: Seq<Seq<char>>, y: Seq<Seq<char>>)
    ensures
        filled(x + y) == filled(x) + filled(y),
    decreases x.len(),
{
    if x.len() == 0 {
        assert(x + y =~= y);
        assert(filled(x) + filled(y) =~= filled(y));
    } else {
        lemma_filled_add(x.drop_first(), y);
        assert((x + y).drop_first() =~= x.drop_first() + y);
        assert((x + y)[0] == x[0]);
        assert(filled(x + y) =~= filled(x) + filled(y));
    }
}

/// A space parts the words before it from those behind it.
pub proof fn lemma_words_add(a: Seq<char>, c: char, b: Seq<char>)
    requires
        space(c),
    ensures
        words(a + seq![c] + b) == words(a) + words(b),
{
    lemma_pieces_add(a, c, b, spaces());
    lemma_filled_add(pieces(a, spaces()), pieces(b, spaces()));
}

/// Not empty, and without spaces.
pub open spec fn word(s: Seq<char>) -> bool {
    s.len() > 0 && forall|i: int| 0 <= i < s.len() ==> !space(#[trigger] s[i])
}

pub proof fn lemma_words_one(x: Seq<char>)
    requires
        word(x),
    ensures
        words(x) == seq![x],
{
    assert forall|i: int| 0 <= i < x.len() implies !spaces()(#[trigger] x[i]) by {}
    lemma_first_is(x, spaces(), x.len());
    let p = pieces(x, spaces());
    assert(p =~= seq![x]);
    assert(p.drop_first() =~= seq![]);
    assert(filled(seq![]) =~= seq![]);
    assert(filled(p) =~= seq![x]);
}

/// Words joined by single spaces are the words read.
pub proof fn lemma_words_join(v: Seq<Seq<char>>)
    requires
        forall|i: int| 0 <= i < v.len() ==> word(#[trigger] v[i]),
    ensures
        words(join(v, " "@)) == v,
    decreases v.len(),
{
    reveal_strlit(" ");
    if v.len() == 0 {
        let e = Seq::<char>::empty();
        assert(join(v, " "@) =~= e);
        assert(pieces(e, spaces()) =~= seq![e]);
        assert(seq![e].drop_first() =~= seq![]);
        assert(filled(seq![]) =~= seq![]);
        assert(filled(seq![e]) =~= seq![]);
        assert(v =~= seq![]);
    } else if v.len() == 1 {
        lemma_words_one(v[0]);
        assert(v =~= seq![v[0]]);
    } else {
        let front = v.drop_last();
        assert forall|i: int| 0 <= i < front.len() implies word(#[trigger] front[i]) by {
            assert(front[i] == v[i]);
        }
        lemma_words_join(front);
        lemma_words_one(v.last());
        assert(" "@ =~= seq![' ']);
        lemma_words_add(join(front, " "@), ' ', v.last());
        assert(v =~= front + seq![v.last()]);
    }
}

// ---------------------------------------------------------------------
// Numbers.
// ---------------------------------------------------------------------

pub open spec fn digits(s: Seq<char>) -> bool {
    s.len() > 0 && forall|i: int| 0 <= i < s.len() ==> digit(#[trigger] s[i])
}

pub open spec fn value(s: Seq<char>) -> nat
    decreases s.len(),
{
    if s.len() == 0 {
        0
    } else {
        (value(s.drop_last()) * 10 + (s.last() as int - '0' as int)) as nat
    }
}

/// The number `s` writes, up to `max`; a plus sign may stand before it.
pub open spec fn number(s: Seq<char>, max: nat) -> Option<nat> {
    let d = if s.len() > 1 && s[0] == '+' {
        s.skip(1)
    } else {
        s
    };
    if digits(d) && value(d) <= max {
        Some(value(d))
    } else {
        None
    }
}

pub proof fn lemma_value_grows(s: Seq<char>, i: int)
    requires
        digits(s),
        0 <= i <= s.len(),
    ensures
        value(s.take(i)) <= value(s),
    decreases s.len(),
{
    if i < s.len() {
        if s.len() > 1 {
            assert(digits(s.drop_last())) by {
                assert forall|j: int| 0 <= j < s.drop_last().len() implies digit(
                    #[trigger] s.drop_last()[j],
                ) by {
                    assert(s.drop_last()[j] == s[j]);
                }
            }
            lemma_value_grows(s.drop_last(), i);
            assert(s.drop_last().take(i) =~= s.take(i));
        } else {
            assert(s.take(i) =~= seq![]);
        }
        assert(digit(s[s.len() - 1]));
    } else {
        assert(s.take(i) =~= s);
    }
}

pub fn number_of(s: &str, max: u64) -> (r: Option<u64>)
    ensures
        match r {
            Some(n) => number(s@, max as nat) == Some(n as nat),
            None => number(s@, max as nat) is None,
        },
{
    let v = chars_of(s);
    let from: usize = if v.len() > 1 && v[0] == '+' {
        1
    } else {
        0
    };
    let ghost d = s@.skip(from as int);
    proof {
        assert(s@.skip(0) =~= s@);
    }
    if v.len() == 0 {
        return None;
    }
    let mut n: u64 = 0;
    let mut i: usize = from;
    proof {
        assert(d.take(0) =~= seq![]);
    }
    while i < v.len()
        invariant
            v@ == s@,
            from <= i <= v@.len(),
            from < v@.len(),
            d == s@.skip(from as int),
            n == value(d.take(i - from)),
            n <= max,
            forall|j: int| 0 <= j < i - from ==> digit(#[trigger] d[j]),
            number(s@, max as nat) == (if digits(d) && value(d) <= max {
                Some(value(d))
            } else {
                None
            }),
        decreases v@.len() - i,
    {
        let c = v[i];
        if !('0' <= c && c <= '9') {
            proof {
                assert(!digit(d[i - from]));
            }
            return None;
        }
        let k: u64 = (c as u8 - '0' as u8) as u64;
        proof {
            let t = d.take(i - from + 1);
            assert(t.drop_last() =~= d.take(i - from));
            assert(value(t) == n * 10 + k);
            if digits(d) {
                lemma_value_grows(d, i - from + 1);
            }
        }
        if k > max || n > (max - k) / 10 {
            return None;
        }
        n = n * 10 + k;
        i += 1;
    }
    proof {
        assert(d.take(i - from) =~= d);
    }
    Some(n)
}

pub open spec fn digit_char(d: nat) -> char {
    (48 + d % 10) as u8 as char
}

/// `n` in decimal.
pub open spec fn decimal(n: nat) -> Seq<char>
    decreases n,
{
    if n < 10 {
        seq![digit_char(n)]
    } else {
        decimal(n / 10).push(digit_char(n % 10))
    }
}

pub proof fn lemma_decimal(n: nat)
    ensures
        digits(decimal(n)),
        value(decimal(n)) == n,
        n == 0 || decimal(n)[0] != '0',
        forall|i: int| 0 <= i < decimal(n).len() ==> digit(#[trigger] decimal(n)[i]),
    decreases n,
{
    let s = decimal(n);
    if n < 10 {
        assert(s.drop_last() =~= seq![]);
        assert(value(s.drop_last()) == 0);
        assert(s.last() == digit_char(n));
    } else {
        lemma_decimal(n / 10);
        assert(s.drop_last() =~= decimal(n / 10));
        assert(s.last() == digit_char(n % 10));
        assert forall|i: int| 0 <= i < s.len() implies digit(#[trigger] s[i]) by {
            if i < s.len() - 1 {
                assert(s[i] == decimal(n / 10)[i]);
            }
        }
    }
}

/// A number shown is the number read.
pub proof fn lemma_number_decimal(n: nat, max: nat)
    requires
        n <= max,
    ensures
        number(decimal(n), max) == Some(n),
{
    lemma_decimal(n);
    assert(digit(decimal(n)[0]));
}

pub fn show(n: u128) -> (r: String)
    ensures
        r@ == decimal(n as nat),
    decreases n,
{
    if n < 10 {
        let mut r = String::new();
        r.push((48 + n as u8) as char);
        proof {
            assert(r@ =~= seq![digit_char(n as nat)]);
        }
        r
    } else {
        let mut r = show(n / 10);
        let d: u8 = (n % 10) as u8;
        r.push((48 + d) as char);
        r
    }
}

pub open spec fn hex_char(d: nat) -> char {
    if d % 16 < 10 {
        (48 + d % 16) as u8 as char
    } else {
        (87 + d % 16) as u8 as char
    }
}

/// The last `k` hexadecimal digits of `n`.
pub open spec fn hex(n: nat, k: nat) -> Seq<char>
    decreases k,
{
    if k == 0 {
        seq![]
    } else {
        hex(n / 16, (k - 1) as nat).push(hex_char(n % 16))
    }
}

pub fn show_hex(n: u64, k: u32) -> (r: String)
    ensures
        r@ == hex(n as nat, k as nat),
    decreases k,
{
    if k == 0 {
        String::new()
    } else {
        let mut r = show_hex(n / 16, k - 1);
        let d: u8 = (n % 16) as u8;
        if d < 10 {
            r.push((48 + d) as char);
        } else {
            r.push((87 + d) as char);
        }
        r
    }
}

/// What `{:?}` writes for a text: in quotes, with escapes.
pub uninterp spec fn quoted(s: Seq<char>) -> Seq<char>;

/// `format!("{:?}")` of a text, whose escapes follow the Unicode tables of
/// std; it is a function of the text alone.
#[verifier::external_body]
pub(crate) fn quote(s: &str) -> (r: String)
    ensures
        r@ == quoted(s@),
{
    format!("{s:?}")
}

pub open spec fn shown_bool(b: bool) -> Seq<char> {
    if b {
        "true"@
    } else {
        "false"@
    }
}

pub fn show_bool(b: bool) -> (r: &'static str)
    ensures
        r@ == shown_bool(b),
{
    if b {
        "true"
    } else {
        "false"
    }
}

/// `names` has `n`.
pub fn among(names: &Vec<String>, n: &str) -> (r: bool)
    ensures
        r == seen(names@).contains(n@),
{
    let mut i: usize = 0;
    while i < names.len()
        invariant
            i <= names@.len(),
            forall|j: int| 0 <= j < i ==> names@[j]@ != n@,
        decreases names@.len() - i,
    {
        if same(names[i].as_str(), n) {
            proof {
                assert(seen(names@)[i as int] == n@);
            }
            return true;
        }
        i += 1;
    }
    proof {
        assert forall|j: int| 0 <= j < seen(names@).len() implies seen(names@)[j] != n@ by {}
    }
    false
}

/// Copies of the texts.
pub fn copies(v: &Vec<String>) -> (r: Vec<String>)
    ensures
        seen(r@) == seen(v@),
{
    let mut r: Vec<String> = Vec::new();
    let mut i: usize = 0;
    while i < v.len()
        invariant
            i <= v@.len(),
            seen(r@) =~= seen(v@).take(i as int),
        decreases v@.len() - i,
    {
        let ghost before = r@;
        let s = v[i].clone();
        r.push(s);
        proof {
            lemma_seen_push(before, s);
        }
        i += 1;
    }
    proof {
        assert(seen(v@).take(i as int) =~= seen(v@));
    }
    r
}

/// A piece without `c`, then `c`, then the rest: split there.
pub proof fn lemma_split_cons(x: Seq<char>, c: char, rest: Seq<char>)
    requires
        !x.contains(c),
    ensures
        split(x + seq![c] + rest, c) == seq![x] + split(rest, c),
{
    let s = x + seq![c] + rest;
    assert forall|i: int| 0 <= i < x.len() implies !one(c)(#[trigger] s[i]) by {
        assert(s[i] == x[i]);
    }
    lemma_first_is(s, one(c), x.len());
    assert(s.take(x.len() as int) =~= x);
    assert(s.skip(x.len() as int + 1) =~= rest);
}

/// A text without `c` is one piece.
pub proof fn lemma_split_one(x: Seq<char>, c: char)
    requires
        !x.contains(c),
    ensures
        split(x, c) == seq![x],
{
    assert forall|i: int| 0 <= i < x.len() implies !one(c)(#[trigger] x[i]) by {}
    lemma_first_is(x, one(c), x.len());
}

/// Around a separator stand what is before it and what is behind it, and
/// of several separators the first counts; without one there is nothing to
/// part.
pub proof fn lemma_parted(a: Seq<char>, c: char, b: Seq<char>)
    requires
        !a.contains(c),
    ensures
        around(a + seq![c] + b, c) == Some((a, b)),
        around(a, c) is None,
{
    let s = a + seq![c] + b;
    assert forall|i: int| 0 <= i < a.len() implies !one(c)(#[trigger] s[i]) by {
        assert(s[i] == a[i]);
    }
    lemma_first_is(s, one(c), a.len());
    assert(s.take(a.len() as int) =~= a);
    assert(s.skip(a.len() as int + 1) =~= b);
    assert forall|i: int| 0 <= i < a.len() implies !one(c)(#[trigger] a[i]) by {}
    lemma_first_is(a, one(c), a.len());
}

/// Of several separators the last counts when it is looked for from the
/// end.
pub proof fn lemma_parted_last(a: Seq<char>, c: char, b: Seq<char>)
    requires
        !b.contains(c),
    ensures
        around_last(a + seq![c] + b, c) == Some((a, b)),
        around_last(b, c) is None,
    decreases b.len(),
{
    let s = a + seq![c] + b;
    if b.len() == 0 {
        assert(s.drop_last() =~= a);
        assert(b =~= seq![]);
    } else {
        let r = b.drop_last();
        assert forall|i: int| 0 <= i < r.len() implies #[trigger] r[i] != c by {
            assert(b.contains(b[i]));
        }
        assert(b.contains(b.last()));
        lemma_parted_last(a, c, r);
        assert(s.drop_last() =~= a + seq![c] + r);
        assert(s.last() == b.last());
        assert(r.push(b.last()) =~= b);
    }
}

proof fn lemma_stripped_start(s: Seq<char>, p: spec_fn(char) -> bool)
    ensures
        ({
            let t = strip_start(s, p);
            let n = s.len() - t.len();
            &&& 0 <= n
            &&& t == s.skip(n)
            &&& forall|i: int| 0 <= i < n ==> p(#[trigger] s[i])
            &&& t.len() > 0 ==> !p(t[0])
        }),
    decreases s.len(),
{
    if s.len() > 0 && p(s[0]) {
        let r = s.drop_first();
        lemma_stripped_start(r, p);
        let n = r.len() - strip_start(r, p).len();
        assert(r.skip(n) =~= s.skip(n + 1));
        assert forall|i: int| 0 <= i < n + 1 implies p(#[trigger] s[i]) by {
            if i > 0 {
                assert(s[i] == r[i - 1]);
            }
        }
    } else {
        assert(s.skip(0) =~= s);
    }
}

proof fn lemma_stripped_end(s: Seq<char>, p: spec_fn(char) -> bool)
    ensures
        ({
            let t = strip_end(s, p);
            &&& t.len() <= s.len()
            &&& t == s.take(t.len() as int)
            &&& forall|i: int| t.len() <= i < s.len() ==> p(#[trigger] s[i])
            &&& t.len() > 0 ==> !p(t.last())
        }),
    decreases s.len(),
{
    if s.len() > 0 && p(s.last()) {
        let r = s.drop_last();
        lemma_stripped_end(r, p);
        let n = strip_end(r, p).len() as int;
        assert(r.take(n) =~= s.take(n));
        assert forall|i: int| n <= i < s.len() implies p(#[trigger] s[i]) by {
            if i < r.len() {
                assert(s[i] == r[i]);
            }
        }
    } else {
        assert(s.take(s.len() as int) =~= s);
    }
}

/// Trimmed is what stands between the white space at the edges, all of it
/// and no more.
pub proof fn lemma_trimmed(s: Seq<char>)
    ensures
        exists|n: int|
            {
                &&& 0 <= n
                &&& n + trim(s).len() <= s.len()
                &&& trim(s) == #[trigger] s.subrange(n, n + trim(s).len())
                &&& forall|i: int|
                    0 <= i < n || n + trim(s).len() <= i < s.len() ==> space(#[trigger] s[i])
            },
        trim(s).len() > 0 ==> !space(trim(s)[0]) && !space(trim(s).last()),
{
    let a = strip_start(s, spaces());
    lemma_stripped_start(s, spaces());
    lemma_stripped_end(a, spaces());
    let n = s.len() - a.len();
    let t = trim(s);
    assert(t =~= s.subrange(n, n + t.len()));
    assert forall|i: int| 0 <= i < n || n + t.len() <= i < s.len() implies space(#[trigger] s[i]) by {
        if i >= n {
            assert(spaces()(a[i - n]));
            assert(a[i - n] == s[i]);
        } else {
            assert(spaces()(s[i]));
        }
    }
    if t.len() > 0 {
        assert(t[0] == a[0]);
        assert(!spaces()(a[0]));
        assert(!spaces()(t.last()));
    }
}

/// A text that neither begins nor ends with white space is trimmed as it
/// stands.
pub proof fn lemma_trim_keeps(s: Seq<char>)
    requires
        s.len() > 0 ==> !space(s[0]) && !space(s.last()),
    ensures
        trim(s) == s,
{
    if s.len() > 0 {
        assert(!spaces()(s[0]) && !spaces()(s.last()));
    }
}

/// The case of a letter is changed, and nothing else.
pub proof fn lemma_case(s: Seq<char>, i: int)
    requires
        0 <= i < s.len(),
    ensures
        lower(s).len() == s.len(),
        lower(s)[i] as int == if 'A' <= s[i] <= 'Z' {
            s[i] as int + 32
        } else {
            s[i] as int
        },
        upper(s).len() == s.len(),
        upper(s)[i] as int == if 'a' <= s[i] <= 'z' {
            s[i] as int - 32
        } else {
            s[i] as int
        },
{
}

/// A text stands before another by the first character in which they
/// differ.
pub proof fn lemma_precedes_by_the_first(p: Seq<char>, x: char, a: Seq<char>, y: char, b: Seq<char>)
    ensures
        x != y ==> precedes(p + seq![x] + a, p + seq![y] + b) == (x < y),
        precedes(p, p + seq![x] + a),
        !precedes(p + seq![x] + a, p),
    decreases p.len(),
{
    let (s, t) = (p + seq![x] + a, p + seq![y] + b);
    if p.len() > 0 {
        lemma_precedes_by_the_first(p.drop_first(), x, a, y, b);
        assert(s.drop_first() =~= p.drop_first() + seq![x] + a);
        assert(t.drop_first() =~= p.drop_first() + seq![y] + b);
    }
}

/// A text begins with what stands at its front, ends with what stands at
/// its end, and has what stands in it; without its front it is the rest.
pub proof fn lemma_where_it_stands(a: Seq<char>, b: Seq<char>, c: Seq<char>)
    ensures
        starts(a + b, a),
        ends(a + b, b),
        has(a + b + c, b),
        after(a + b, a) == Some(b),
        starts(c, a) <==> c.len() >= a.len() && forall|i: int|
            0 <= i < a.len() ==> #[trigger] c[i] == a[i],
        !starts(c, a) ==> after(c, a) is None,
{
    let s = a + b;
    assert(s.take(a.len() as int) =~= a);
    assert(s.skip(a.len() as int) =~= b);
    let t = a + b + c;
    assert(t.skip(a.len() as int) =~= b + c);
    assert((b + c).take(b.len() as int) =~= b);
    assert(starts(t.skip(a.len() as int), b));
    if c.len() >= a.len() && forall|i: int| 0 <= i < a.len() ==> #[trigger] c[i] == a[i] {
        assert(c.take(a.len() as int) =~= a);
    }
    if starts(c, a) {
        assert forall|i: int| 0 <= i < a.len() implies #[trigger] c[i] == a[i] by {
            assert(c.take(a.len() as int)[i] == c[i]);
        }
    }
}

/// Texts are joined one after another with the separator between them, and
/// a page is a line after another.
pub proof fn lemma_one_more_joined(v: Seq<Seq<char>>, x: Seq<char>, sep: Seq<char>)
    ensures
        join(seq![], sep) == Seq::<char>::empty(),
        v.len() == 0 ==> join(v.push(x), sep) == x,
        v.len() > 0 ==> join(v.push(x), sep) == join(v, sep) + sep + x,
        paged(seq![]) == Seq::<char>::empty(),
        paged(v.push(x)) == paged(v) + x + seq!['\n'],
{
    reveal_strlit("\n");
    assert("\n"@ =~= seq!['\n']);
    assert(v.push(x).drop_last() =~= v);
}

/// A number is of digits alone, with a plus sign before them at most, and is
/// what they write in tens, up to the greatest allowed.
pub proof fn lemma_what_a_number_is(s: Seq<char>, c: char, max: nat)
    ensures
        value(seq![]) == 0,
        '0' <= c <= '9' ==> value(s.push(c)) == value(s) * 10 + (c as int - '0' as int),
        digits(s) <==> s.len() > 0 && forall|i: int|
            0 <= i < s.len() ==> '0' <= #[trigger] s[i] <= '9',
        digits(s) ==> number(s, max) == if value(s) <= max {
            Some(value(s))
        } else {
            None
        },
        digits(s) ==> number(seq!['+'] + s, max) == number(s, max),
        number(s, max) is Some ==> digits(s) || (s.len() > 1 && s[0] == '+' && digits(s.skip(1))),
{
    assert(s.push(c).drop_last() =~= s);
    assert((seq!['+'] + s).skip(1) =~= s);
    if digits(s) {
        assert(digit(s[0]));
        assert forall|i: int| 0 <= i < s.len() implies '0' <= #[trigger] s[i] <= '9' by {
            assert(digit(s[i]));
        }
    }
}

/// A text without a line feed is one line, an empty one is none, and a
/// carriage return before a line feed is no part of the line.
pub proof fn lemma_what_a_line_is(x: Seq<char>, rest: Seq<char>)
    requires
        !x.contains('\n'),
    ensures
        lines(seq![]) == Seq::<Seq<char>>::empty(),
        x.len() > 0 ==> lines(x) == seq![x],
        lines(x + seq!['\r', '\n'] + rest) == seq![x] + lines(rest),
        !(x.len() > 0 && x.last() == '\r') ==> lines(x + seq!['\n'] + rest) == seq![x] + lines(
            rest,
        ),
{
    reveal_strlit("\n");
    assert("\n"@ =~= seq!['\n']);
    assert forall|i: int| 0 <= i < x.len() implies !one('\n')(#[trigger] x[i]) by {}
    lemma_first_is(x, one('\n'), x.len());
    let y = x.push('\r');
    assert forall|i: int| 0 <= i < y.len() implies y[i] != '\n' by {
        if i < x.len() {
            assert(x.contains(x[i]));
        }
    }
    lemma_lines_cons(y, rest);
    assert(y + "\n"@ + rest =~= x + seq!['\r', '\n'] + rest);
    assert(y.drop_last() =~= x);
    lemma_lines_cons(x, rest);
}

/// The letters, the digits and the space of the plain alphabet.
pub proof fn lemma_plain_characters(c: char, b: bool)
    requires
        c < '\u{80}',
    ensures
        space(c) <==> c == ' ' || c == '\t' || c == '\n' || c == '\r' || c == '\u{b}' || c
            == '\u{c}',
        shown_bool(b) == if b {
            "true"@
        } else {
            "false"@
        },
{
}

/// The last hexadecimal digits, one more in front of another.
pub proof fn lemma_one_more_digit(n: nat, k: nat, d: nat)
    requires
        d < 16,
    ensures
        hex(n, 0) == Seq::<char>::empty(),
        hex(n * 16 + d, k + 1) == hex(n, k).push(hex_char(d)),
        hex_char(d) as int == if d < 10 {
            '0' as int + d
        } else {
            'a' as int + d - 10
        },
{
    assert((n * 16 + d) / 16 == n && (n * 16 + d) % 16 == d) by (nonlinear_arith)
        requires
            d < 16,
    ;
}

} // verus!
