//! The directory of a file, by its path alone.

use vstd::prelude::*;
use vstd::string::*;

use crate::text::{chars_of, cut};

verus! {

/// What stands before the first part of a path: the root, or a leading dot.
pub open spec fn lead(s: Seq<char>) -> nat {
    if s.len() > 0 && s[0] == '/' {
        1
    } else if s.len() > 0 && s[0] == '.' && (s.len() == 1 || s[1] == '/') {
        1
    } else {
        0
    }
}

/// Where the last part of a path begins, not before `n`.
pub open spec fn last_part(s: Seq<char>, n: nat) -> nat
    decreases s.len(),
{
    if s.len() <= n {
        n
    } else if s.last() == '/' {
        s.len()
    } else {
        last_part(s.drop_last(), n)
    }
}

/// A path without its last part, nor the slash before that.
pub open spec fn without_last(s: Seq<char>, n: nat) -> Seq<char> {
    let b = last_part(s, n);
    if b > n {
        s.take(b - 1)
    } else {
        s.take(n as int)
    }
}

proof fn lemma_last_part(s: Seq<char>, n: nat)
    requires
        n <= s.len(),
    ensures
        n <= last_part(s, n) <= s.len(),
        last_part(s, n) > n ==> s[last_part(s, n) - 1] == '/',
    decreases s.len(),
{
    if s.len() > n && s.last() != '/' {
        lemma_last_part(s.drop_last(), n);
    }
}

/// A path without the parts at its end that say nothing: slashes and dots.
pub open spec fn tidy(s: Seq<char>, n: nat) -> Seq<char>
    decreases s.len(),
{
    if s.len() <= n {
        s
    } else {
        let part = s.skip(last_part(s, n) as int);
        if part.len() == 0 || part == seq!['.'] {
            let rest = without_last(s, n);
            if rest.len() < s.len() {
                tidy(rest, n)
            } else {
                s
            }
        } else {
            s
        }
    }
}

/// The directory of a file: what is before its last part, the current one
/// without any.
pub open spec fn directory(s: Seq<char>) -> Seq<char> {
    let n = lead(s);
    let t = tidy(s, n);
    if t.len() <= n {
        seq!['.']
    } else {
        let d = tidy(without_last(t, n), n);
        if d.len() == 0 {
            seq!['.']
        } else {
            d
        }
    }
}

fn lead_of(v: &Vec<char>) -> (r: usize)
    ensures
        r == lead(v@),
        r <= v@.len(),
{
    if v.len() > 0 && v[0] == '/' {
        1
    } else if v.len() > 0 && v[0] == '.' && (v.len() == 1 || v[1] == '/') {
        1
    } else {
        0
    }
}

fn last_part_of(v: &Vec<char>, end: usize, n: usize) -> (r: usize)
    requires
        n <= end <= v@.len(),
    ensures
        r == last_part(v@.take(end as int), n as nat),
        n <= r <= end,
{
    let mut i: usize = end;
    while i > n && v[i - 1] != '/'
        invariant
            n <= i <= end <= v@.len(),
            last_part(v@.take(end as int), n as nat) == last_part(v@.take(i as int), n as nat),
        decreases i,
    {
        proof {
            assert(v@.take(i as int).drop_last() =~= v@.take(i - 1));
            assert(v@.take(i as int).last() == v@[i - 1]);
        }
        i -= 1;
    }
    proof {
        if i > n {
            assert(v@.take(i as int).last() == v@[i - 1]);
        }
    }
    i
}

fn cut_last(v: &Vec<char>, end: usize, n: usize) -> (r: usize)
    requires
        n < end <= v@.len(),
    ensures
        v@.take(r as int) == without_last(v@.take(end as int), n as nat),
        n <= r < end,
{
    let b = last_part_of(v, end, n);
    let r = if b > n {
        b - 1
    } else {
        n
    };
    proof {
        lemma_last_part(v@.take(end as int), n as nat);
        assert(v@.take(end as int).take(r as int) =~= v@.take(r as int));
    }
    r
}

fn tidy_of(v: &Vec<char>, end: usize, n: usize) -> (r: usize)
    requires
        n <= end <= v@.len(),
    ensures
        v@.take(r as int) == tidy(v@.take(end as int), n as nat),
        n <= r <= end,
{
    let mut e: usize = end;
    while e > n
        invariant_except_break
            n <= e <= end <= v@.len(),
            tidy(v@.take(end as int), n as nat) == tidy(v@.take(e as int), n as nat),
        ensures
            n <= e <= end,
            v@.take(e as int) == tidy(v@.take(end as int), n as nat),
        decreases e,
    {
        let b = last_part_of(v, e, n);
        let ghost part = v@.take(e as int).skip(b as int);
        let dot = e - b == 1 && v[b] == '.';
        proof {
            lemma_last_part(v@.take(e as int), n as nat);
            if dot {
                assert(part =~= seq!['.']);
            } else if b < e {
                assert(part.len() == e - b);
                assert(part[0] == v@[b as int]);
                assert(part != seq!['.']) by {
                    if part == seq!['.'] {
                        assert(part.len() == 1);
                        assert(part[0] == '.');
                    }
                }
            }
        }
        if b < e && !dot {
            break;
        }
        let ghost before = e;
        e = cut_last(v, e, n);
        proof {
            assert(v@.take(e as int).len() < v@.take(before as int).len());
        }
    }
    e
}

/// The directory of a file.
pub fn dir_of(file: &str) -> (r: String)
    ensures
        r@ == directory(file@),
{
    let v = chars_of(file);
    let n = lead_of(&v);
    proof {
        assert(v@.take(v@.len() as int) =~= v@);
    }
    let t = tidy_of(&v, v.len(), n);
    let mut dot = String::new();
    dot.push('.');
    proof {
        assert(dot@ =~= seq!['.']);
    }
    if t <= n {
        return dot;
    }
    let c = cut_last(&v, t, n);
    let d = tidy_of(&v, c, n);
    if d == 0 {
        return dot;
    }
    let r = cut(&v, 0, d);
    proof {
        assert(v@.subrange(0, d as int) =~= v@.take(d as int));
    }
    r
}

// ---------------------------------------------------------------------
// Laws.
// ---------------------------------------------------------------------

proof fn lemma_last_part_is(a: Seq<char>, name: Seq<char>, n: nat)
    requires
        !name.contains('/'),
        n <= a.len() + 1,
    ensures
        last_part(a + seq!['/'] + name, n) == a.len() + 1,
    decreases name.len(),
{
    let s = a + seq!['/'] + name;
    if name.len() > 0 {
        let r = name.drop_last();
        assert forall|i: int| 0 <= i < r.len() implies r[i] != '/' by {
            assert(name.contains(name[i]));
        }
        assert(name.contains(name.last()));
        lemma_last_part_is(a, r, n);
        assert(s.drop_last() =~= a + seq!['/'] + r);
        assert(s.last() == name.last());
    }
}

/// The directory of a file is the path to it without its name and the slash
/// before that.
pub proof fn lemma_what_a_directory_is(dir: Seq<char>, name: Seq<char>)
    requires
        dir.len() > 0,
        dir.last() != '/',
        dir.last() != '.',
        name.len() > 0,
        !name.contains('/'),
        name != seq!['.'],
    ensures
        directory(dir + seq!['/'] + name) == dir,
{
    let s = dir + seq!['/'] + name;
    let n = lead(s);
    lemma_last_part_is(dir, name, n);
    assert(s.skip(dir.len() as int + 1) =~= name);
    assert(tidy(s, n) == s);
    assert(s.take(dir.len() as int) =~= dir);
    assert(without_last(s, n) == dir);
    if dir.len() > n {
        lemma_last_part_bounds(dir, n);
        let part = dir.skip(last_part(dir, n) as int);
        assert(part.len() > 0);
        assert(part.last() == dir.last());
    }
    assert(tidy(dir, n) == dir);
}

proof fn lemma_last_part_bounds(s: Seq<char>, n: nat)
    requires
        s.len() > n,
        s.last() != '/',
    ensures
        n <= last_part(s, n) < s.len(),
    decreases s.len(),
{
    reveal_with_fuel(last_part, 2);
    let r = s.drop_last();
    if r.len() > n {
        if r.last() != '/' {
            lemma_last_part_bounds(r, n);
        }
    }
}

/// A file of the root is in the root, and one named without a directory in
/// the current one.
pub proof fn lemma_a_name_alone(name: Seq<char>)
    requires
        name.len() > 0,
        !name.contains('/'),
        name[0] != '.',
    ensures
        directory(seq!['/'] + name) == seq!['/'],
        directory(name) == seq!['.'],
{
    let s = seq!['/'] + name;
    lemma_last_part_is(seq![], name, 1);
    assert(Seq::<char>::empty() + seq!['/'] + name =~= s);
    assert(s.skip(1) =~= name);
    assert(name != seq!['.']);
    assert(tidy(s, 1) == s);
    assert(s.take(1) =~= seq!['/']);
    assert(name.contains(name[0]));
    assert(lead(name) == 0);
    lemma_no_part(name);
    assert(name.skip(0) =~= name);
    assert(tidy(name, 0) == name);
    assert(without_last(name, 0) =~= seq![]);
    assert(tidy(seq![], 0) =~= seq![]);
}

proof fn lemma_no_part(s: Seq<char>)
    requires
        !s.contains('/'),
    ensures
        last_part(s, 0) == 0,
    decreases s.len(),
{
    if s.len() > 0 {
        let r = s.drop_last();
        assert forall|i: int| 0 <= i < r.len() implies r[i] != '/' by {
            assert(s.contains(s[i]));
        }
        assert(s.contains(s.last()));
        lemma_no_part(r);
    }
}

} // verus!
