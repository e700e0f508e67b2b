//! Lexical confinement of untrusted relative paths under a root: no symlink
//! resolution and no filesystem access.

use vstd::prelude::*;
use crate::text::{chars_of, join2, push_str, same_text, string_from, string_of};

verus! {

pub const MAX_PATH_COMPONENTS: usize = 32;

/// The pieces of a text between `/` separators.
pub open spec fn segments(s: Seq<char>) -> Seq<Seq<char>>
    decreases s.len(),
{
    if s.len() == 0 {
        seq![Seq::<char>::empty()]
    } else {
        let p = segments(s.drop_last());
        if s.last() == '/' {
            p.push(Seq::<char>::empty())
        } else {
            p.update(p.len() - 1, p.last().push(s.last()))
        }
    }
}

/// What a path component does: 0 nothing (`.` or empty), 1 descend,
/// 2 go up (`..`).
pub open spec fn step_of(seg: Seq<char>) -> nat {
    if seg.len() == 0 || seg == seq!['.'] {
        0
    } else if seg == seq!['.', '.'] {
        2
    } else {
        1
    }
}

/// The walk over components: status (0 under the root, 1 escaped, 2 too
/// deep; the first failure sticks), components counted, depth.
pub open spec fn walk(segs: Seq<Seq<char>>) -> (nat, nat, int)
    decreases segs.len(),
{
    if segs.len() == 0 {
        (0, 0, 0)
    } else {
        let (status, count, depth) = walk(segs.drop_last());
        let k = step_of(segs.last());
        if status != 0 || k == 0 {
            (status, count, depth)
        } else if k == 2 && depth - 1 < 0 {
            (1, count, depth)
        } else if count + 1 > MAX_PATH_COMPONENTS {
            (2, count, depth)
        } else {
            (0, count + 1, if k == 1 { depth + 1 } else { depth - 1 })
        }
    }
}

/// `candidate` appended to `root`, with a separator where needed.
pub open spec fn join_path(root: Seq<char>, candidate: Seq<char>) -> Seq<char> {
    if root.len() == 0 || root.last() == '/' { root + candidate } else { root + seq!['/'] + candidate }
}

fn component_step(cs: &Vec<char>, from: usize, to: usize) -> (r: u8)
    requires
        from <= to <= cs.len(),
    ensures
        r as nat == step_of(cs@.subrange(from as int, to as int)),
{
    let ghost seg = cs@.subrange(from as int, to as int);
    if to == from {
        return 0;
    }
    if to - from == 1 && cs[from] == '.' {
        assert(seg =~= seq!['.']);
        return 0;
    }
    if to - from == 2 && cs[from] == '.' && cs[from + 1] == '.' {
        assert(seg =~= seq!['.', '.']);
        return 2;
    }
    assert(seg != seq!['.']) by {
        if seg == seq!['.'] {
            assert(seg.len() == 1 && seg[0] == '.');
        }
    }
    assert(seg != seq!['.', '.']) by {
        if seg == seq!['.', '.'] {
            assert(seg.len() == 2 && seg[0] == '.' && seg[1] == '.');
        }
    }
    1
}

/// Joins `candidate` under `root`. An absolute candidate, a `..` that
/// leaves the root, and more than 32 components are refused.
pub fn confine(root: &str, candidate: &str) -> (r: Result<String, String>)
    ensures
        candidate@.len() > 0 && candidate@[0] == '/' ==>
            (r matches Err(m) && m@ == "absolute path rejected: "@ + candidate@),
        !(candidate@.len() > 0 && candidate@[0] == '/') ==> {
            let v = walk(segments(candidate@)).0;
            &&& v == 0 ==> (r matches Ok(p) && p@ == join_path(root@, candidate@))
            &&& v == 1 ==> (r matches Err(m) && m@ == "path escapes root: "@ + candidate@)
            &&& v == 2 ==> (r matches Err(m) && m@ == "path too deep (max 32): "@ + candidate@)
        },
{
    let cs = chars_of(candidate);
    if cs.len() > 0 && cs[0] == '/' {
        return Err(join2("absolute path rejected: ", candidate));
    }
    let mut status: u8 = 0;
    let mut count: usize = 0;
    let mut depth: usize = 0;
    let mut start: usize = 0;
    let mut i: usize = 0;
    let ghost mut done: Seq<Seq<char>> = Seq::empty();
    assert(cs@.subrange(0, 0) =~= Seq::<char>::empty());
    while i < cs.len()
        invariant
            cs@ == candidate@,
            start <= i <= cs.len(),
            segments(cs@.subrange(0, i as int)) == done.push(cs@.subrange(start as int, i as int)),
            walk(done) == (status as nat, count as nat, depth as int),
            count <= MAX_PATH_COMPONENTS,
            depth <= count,
            status <= 2,
        decreases cs.len() - i,
    {
        assert(cs@.subrange(0, i + 1).drop_last() =~= cs@.subrange(0, i as int));
        if cs[i] == '/' {
            let ghost seg = cs@.subrange(start as int, i as int);
            step(&cs, start, i, &mut status, &mut count, &mut depth, Ghost(done));
            proof { done = done.push(seg); }
            i = i + 1;
            start = i;
            assert(cs@.subrange(start as int, i as int) =~= Seq::<char>::empty());
        } else {
            i = i + 1;
            assert(cs@.subrange(start as int, i as int) =~= cs@.subrange(start as int, i - 1).push(cs@[i - 1]));
        }
    }
    assert(cs@.subrange(0, cs.len() as int) =~= candidate@);
    let ghost last = cs@.subrange(start as int, cs.len() as int);
    step(&cs, start, cs.len(), &mut status, &mut count, &mut depth, Ghost(done));
    proof { done = done.push(last); }
    if status == 1 {
        return Err(join2("path escapes root: ", candidate));
    }
    if status == 2 {
        return Err(join2("path too deep (max 32): ", candidate));
    }
    let mut out = string_from(root);
    let rs = chars_of(root);
    if rs.len() > 0 && rs[rs.len() - 1] != '/' {
        push_str(&mut out, "/");
        proof { reveal_strlit("/"); }
    }
    push_str(&mut out, candidate);
    assert(out@ =~= join_path(root@, candidate@));
    Ok(out)
}

/// One component step of the walk.
fn step(cs: &Vec<char>, from: usize, to: usize, status: &mut u8, count: &mut usize, depth: &mut usize, Ghost(done): Ghost<Seq<Seq<char>>>)
    requires
        from <= to <= cs.len(),
        walk(done) == (*old(status) as nat, *old(count) as nat, *old(depth) as int),
        *old(count) <= MAX_PATH_COMPONENTS,
        *old(depth) <= *old(count),
        *old(status) <= 2,
    ensures
        *final(depth) <= *final(count),
        walk(done.push(cs@.subrange(from as int, to as int))) == (*final(status) as nat, *final(count) as nat, *final(depth) as int),
        *final(count) <= MAX_PATH_COMPONENTS,
        *final(status) <= 2,
{
    let ghost seg = cs@.subrange(from as int, to as int);
    assert(done.push(seg).drop_last() =~= done);
    let k = component_step(cs, from, to);
    if *status != 0 || k == 0 {
        return;
    }
    if k == 2 && *depth == 0 {
        *status = 1;
        return;
    }
    if *count + 1 > MAX_PATH_COMPONENTS {
        *status = 2;
        return;
    }
    *count = *count + 1;
    if k == 1 {
        *depth = *depth + 1;
    } else {
        *depth = *depth - 1;
    }
}

} // verus!
