use vstd::prelude::*;

use crate::instruction::Instruction;

verus! {

/// How much an instruction changes the loop nesting depth.
pub open spec fn delta(i: Instruction) -> int {
    match i {
        Instruction::LoopStart => 1,
        Instruction::LoopEnd => -1,
        _ => 0,
    }
}

/// Loop starts minus loop ends among the first `i` instructions.
pub open spec fn depth(prog: Seq<Instruction>, i: int) -> int
    decreases i,
{
    if i <= 0 {
        0
    } else {
        depth(prog, i - 1) + delta(prog[i - 1])
    }
}

/// `s` and `e` are a matched pair of loop markers: the loop end at `e` brings
/// the depth back to where it was before the loop start at `s`, and the depth
/// stays above that level in between.
pub open spec fn is_pair(prog: Seq<Instruction>, s: int, e: int) -> bool {
    &&& 0 <= s < e < prog.len()
    &&& prog[s] is LoopStart
    &&& prog[e] is LoopEnd
    &&& depth(prog, e + 1) == depth(prog, s)
    &&& forall|k: int| s < k <= e ==> #[trigger] depth(prog, k) > depth(prog, s)
}

/// No prefix has more loop ends than loop starts.
pub open spec fn never_negative(prog: Seq<Instruction>) -> bool {
    forall|k: int| 0 <= k <= prog.len() ==> #[trigger] depth(prog, k) >= 0
}

/// Every loop marker has a partner.
pub open spec fn balanced(prog: Seq<Instruction>) -> bool {
    never_negative(prog) && depth(prog, prog.len() as int) == 0
}

/// `e` is the first loop end that closes no open loop.
pub open spec fn first_unmatched_end(prog: Seq<Instruction>, e: int) -> bool {
    &&& 0 <= e < prog.len()
    &&& prog[e] is LoopEnd
    &&& depth(prog, e) == 0
    &&& forall|k: int| 0 <= k <= e ==> #[trigger] depth(prog, k) >= 0
}

/// `s` is the innermost loop start left open at the end of a program in which
/// no loop end is unmatched.
pub open spec fn last_unmatched_start(prog: Seq<Instruction>, s: int) -> bool {
    &&& never_negative(prog)
    &&& 0 <= s < prog.len()
    &&& prog[s] is LoopStart
    &&& depth(prog, s) == depth(prog, prog.len() as int) - 1
    &&& forall|k: int| s < k <= prog.len() ==> #[trigger] depth(prog, k) > depth(prog, s)
}

/// `a` and `b` are partners, in either order.
pub open spec fn partners(prog: Seq<Instruction>, a: int, b: int) -> bool {
    is_pair(prog, a, b) || is_pair(prog, b, a)
}

/// `t` links each loop marker of `prog` to its partner and holds nothing else.
pub open spec fn resolves(prog: Seq<Instruction>, t: Seq<Option<usize>>) -> bool {
    &&& t.len() == prog.len()
    &&& forall|a: int|
        0 <= a < t.len() && #[trigger] t[a] is Some ==> t[a]->0 < t.len() && partners(
            prog,
            a,
            t[a]->0 as int,
        )
    &&& forall|a: int, b: int|
        0 <= a < t.len() && 0 <= b < t.len() && #[trigger] partners(prog, a, b) ==> t[a] is Some
}

/// `e` names the defect of a program whose loop markers do not pair up.
pub open spec fn describes(prog: Seq<Instruction>, e: ResolveError) -> bool {
    match e {
        ResolveError::UnmatchedLoopEnd(x) => first_unmatched_end(prog, x as int),
        ResolveError::UnmatchedLoopStart(x) => last_unmatched_start(prog, x as int),
    }
}

/// A malformed loop structure.
#[derive(Clone, Copy, Debug, PartialEq, Eq, Structural)]
pub enum ResolveError {
    /// The loop end at this offset has no loop start before it to close.
    UnmatchedLoopEnd(usize),
    /// The loop start at this offset is never closed.
    UnmatchedLoopStart(usize),
}

/// For each instruction offset, the offset of the partner loop marker, if the
/// instruction is a loop marker.
pub struct JumpTable {
    targets: Vec<Option<usize>>,
}

impl View for JumpTable {
    type V = Seq<Option<usize>>;

    closed spec fn view(&self) -> Seq<Option<usize>> {
        self.targets@
    }
}

impl JumpTable {
    /// The number of offsets the table covers.
    pub fn len(&self) -> (r: usize)
        ensures
            r == self@.len(),
    {
        self.targets.len()
    }

    /// The partner of the marker at `offset`; `None` for other offsets and
    /// offsets past the end.
    pub fn target(&self, offset: usize) -> (r: Option<usize>)
        ensures
            offset < self@.len() ==> r == self@[offset as int],
            offset >= self@.len() ==> r is None,
    {
        if offset < self.targets.len() {
            self.targets[offset]
        } else {
            None
        }
    }
}

/// `a` and `b` are partners whose loop end lies before `i`.
spec fn closed_before(prog: Seq<Instruction>, a: int, b: int, i: int) -> bool {
    (is_pair(prog, a, b) && b < i) || (is_pair(prog, b, a) && a < i)
}

/// `t` links each pair of partners whose loop end lies before `i`, and holds
/// nothing else.
spec fn resolves_before(prog: Seq<Instruction>, t: Seq<Option<usize>>, i: int) -> bool {
    &&& t.len() == prog.len()
    &&& forall|a: int|
        0 <= a < t.len() && #[trigger] t[a] is Some ==> t[a]->0 < t.len() && closed_before(
            prog,
            a,
            t[a]->0 as int,
            i,
        )
    &&& forall|a: int, b: int|
        0 <= a < t.len() && 0 <= b < t.len() && #[trigger] closed_before(prog, a, b, i)
            ==> t[a] is Some
}

proof fn lemma_depth_step(prog: Seq<Instruction>, i: int)
    requires
        0 <= i,
    ensures
        depth(prog, i + 1) == depth(prog, i) + delta(prog[i]),
{
}

/// A loop end has at most one partner, and so has a loop start.
pub proof fn lemma_partner_unique(prog: Seq<Instruction>, a: int, b: int, c: int)
    ensures
        is_pair(prog, a, b) && is_pair(prog, a, c) ==> b == c,
        is_pair(prog, a, c) && is_pair(prog, b, c) ==> a == b,
{
    if is_pair(prog, a, b) && is_pair(prog, a, c) && b != c {
        if b < c {
            lemma_depth_step(prog, b);
            assert(depth(prog, b + 1) > depth(prog, a));
        } else {
            lemma_depth_step(prog, c);
            assert(depth(prog, c + 1) > depth(prog, a));
        }
    }
    if is_pair(prog, a, c) && is_pair(prog, b, c) && a != b {
        if a < b {
            assert(depth(prog, b) > depth(prog, a));
        } else {
            assert(depth(prog, a) > depth(prog, b));
        }
    }
}

/// An instruction other than a loop end closes no pair.
proof fn lemma_no_new_pair(prog: Seq<Instruction>, t: Seq<Option<usize>>, i: int)
    requires
        0 <= i < prog.len(),
        !(prog[i] is LoopEnd),
        resolves_before(prog, t, i),
    ensures
        resolves_before(prog, t, i + 1),
{
    assert forall|a: int, b: int| #[trigger] closed_before(prog, a, b, i + 1) implies closed_before(
        prog,
        a,
        b,
        i,
    ) by {}
}

/// Recording the pair `(s, e)` at the loop end `e` extends the table from the
/// pairs closed before `e` to those closed before `e + 1`.
proof fn lemma_new_pair(
    prog: Seq<Instruction>,
    old_t: Seq<Option<usize>>,
    new_t: Seq<Option<usize>>,
    s: int,
    e: int,
)
    requires
        is_pair(prog, s, e),
        old_t.len() == prog.len(),
        prog.len() <= usize::MAX,
        new_t == old_t.update(s, Some(e as usize)).update(e, Some(s as usize)),
        resolves_before(prog, old_t, e),
    ensures
        resolves_before(prog, new_t, e + 1),
{
    let n = prog.len() as int;
    assert forall|a: int, b: int| 0 <= a < n && 0 <= b < n && a != s && a != e implies closed_before(
        prog,
        a,
        b,
        e + 1,
    ) == closed_before(prog, a, b, e) by {
        lemma_partner_unique(prog, a, s, e);
    }
    assert forall|a: int, b: int|
        0 <= a < n && 0 <= b < n && #[trigger] closed_before(prog, a, b, e + 1) implies new_t[a] is Some by {
        if a != s && a != e {
            assert(closed_before(prog, a, b, e));
        }
    }
    assert forall|a: int| 0 <= a < n && #[trigger] new_t[a] is Some implies new_t[a]->0 < n
        && closed_before(prog, a, new_t[a]->0 as int, e + 1) by {
        if a == s {
            assert(new_t[a]->0 == e);
        } else if a == e {
            assert(new_t[a]->0 == s);
        } else {
            assert(old_t[a] == new_t[a]);
        }
    }
}

/// A program has one jump table at most: resolving it twice gives the same
/// table.
pub proof fn lemma_resolution_unique(prog: Seq<Instruction>, t1: Seq<Option<usize>>, t2: Seq<Option<usize>>)
    requires
        resolves(prog, t1),
        resolves(prog, t2),
    ensures
        t1 == t2,
{
    assert forall|a: int| 0 <= a < t1.len() implies t1[a] == t2[a] by {
        if t1[a] is Some {
            let b = t1[a]->0 as int;
            assert(partners(prog, a, b));
            let c = t2[a]->0 as int;
            assert(partners(prog, a, c));
            lemma_partner_unique(prog, a, b, c);
            lemma_partner_unique(prog, b, c, a);
        } else if t2[a] is Some {
            assert(partners(prog, a, t2[a]->0 as int));
        }
    }
    assert(t1 =~= t2);
}

/// Scanning right from the loop start `s` while the depth stays above its
/// level reaches its partner.
proof fn lemma_find_end(prog: Seq<Instruction>, s: int, k: int) -> (e: int)
    requires
        balanced(prog),
        0 <= s < k <= prog.len(),
        prog[s] is LoopStart,
        forall|j: int| s < j <= k ==> #[trigger] depth(prog, j) > depth(prog, s),
    ensures
        is_pair(prog, s, e),
    decreases prog.len() - k,
{
    if k == prog.len() {
        assert(depth(prog, s) >= 0);
        assert(false);
        0
    } else {
        lemma_depth_step(prog, k);
        if depth(prog, k + 1) <= depth(prog, s) {
            k
        } else {
            lemma_find_end(prog, s, k + 1)
        }
    }
}

/// Scanning left from the loop end `e` while the depth stays above the level
/// after it reaches its partner.
proof fn lemma_find_start(prog: Seq<Instruction>, e: int, k: int) -> (s: int)
    requires
        balanced(prog),
        0 <= k <= e < prog.len(),
        prog[e] is LoopEnd,
        forall|j: int| k <= j <= e ==> #[trigger] depth(prog, j) > depth(prog, e + 1),
    ensures
        is_pair(prog, s, e),
    decreases k,
{
    assert(depth(prog, e + 1) >= 0);
    if k == 0 {
        assert(depth(prog, 0) == 0);
        assert(false);
        0
    } else {
        lemma_depth_step(prog, k - 1);
        if depth(prog, k - 1) <= depth(prog, e + 1) {
            k - 1
        } else {
            lemma_find_start(prog, e, k - 1)
        }
    }
}

/// In a balanced program every loop marker has a partner, so the table has
/// an entry for it.
pub proof fn lemma_markers_resolved(prog: Seq<Instruction>, t: Seq<Option<usize>>, i: int)
    requires
        balanced(prog),
        resolves(prog, t),
        0 <= i < prog.len(),
        prog[i] is LoopStart || prog[i] is LoopEnd,
    ensures
        t[i] is Some,
{
    lemma_depth_step(prog, i);
    if prog[i] is LoopStart {
        let e = lemma_find_end(prog, i, i + 1);
        assert(partners(prog, i, e));
    } else {
        assert(depth(prog, i + 1) >= 0);
        let s = lemma_find_start(prog, i, i);
        assert(partners(prog, i, s));
    }
}

/// The table links partners both ways: if `s` jumps to `e`, then `e` jumps
/// back to `s`.
pub proof fn lemma_jumps_symmetric(prog: Seq<Instruction>, t: Seq<Option<usize>>, s: int)
    requires
        resolves(prog, t),
        0 <= s < t.len(),
        t[s] is Some,
    ensures
        t[t[s]->0 as int] == Some(s as usize),
{
    let e = t[s]->0 as int;
    assert(partners(prog, e, s));
    let c = t[e]->0 as int;
    assert(partners(prog, e, c));
    lemma_partner_unique(prog, e, s, c);
    lemma_partner_unique(prog, s, c, e);
}

/// Pairs the loop markers of a program: each loop end closes the nearest loop
/// start before it that is still open. A loop end with nothing to close, or a
/// loop start left open, rejects the program.
pub fn calc_wormholes(instructions: &Vec<Instruction>) -> (r: Result<JumpTable, ResolveError>)
    ensures
        r is Ok <==> balanced(instructions@),
        r matches Ok(t) ==> resolves(instructions@, t@),
        r matches Err(e) ==> describes(instructions@, e),
{
    let ghost prog = instructions@;
    let n = instructions.len();
    let mut targets: Vec<Option<usize>> = Vec::new();
    let mut i: usize = 0;
    while i < n
        invariant
            i <= n,
            n == prog.len(),
            targets@.len() == i,
            forall|k: int| 0 <= k < i ==> targets@[k] is None,
        decreases n - i,
    {
        targets.push(None);
        i = i + 1;
    }
    let mut starts: Vec<usize> = Vec::new();
    let mut offset: usize = 0;
    while offset < n
        invariant
            instructions@ == prog,
            n == prog.len(),
            offset <= n,
            targets@.len() == n,
            starts@.len() == depth(prog, offset as int),
            forall|k: int| 0 <= k <= offset ==> #[trigger] depth(prog, k) >= 0,
            forall|j: int|
                0 <= j < starts@.len() ==> {
                    &&& #[trigger] starts@[j] < offset
                    &&& prog[starts@[j] as int] is LoopStart
                    &&& depth(prog, starts@[j] as int) == j
                    &&& forall|k: int|
                        starts@[j] < k <= offset ==> #[trigger] depth(prog, k) > j
                },
            resolves_before(prog, targets@, offset as int),
        decreases n - offset,
    {
        proof {
            lemma_depth_step(prog, offset as int);
        }
        match instructions[offset] {
            Instruction::LoopStart => {
                proof {
                    lemma_no_new_pair(prog, targets@, offset as int);
                }
                starts.push(offset);
            },
            Instruction::LoopEnd => {
                match starts.pop() {
                    Some(start) => {
                        let ghost old_targets = targets@;
                        assert(is_pair(prog, start as int, offset as int));
                        targets.set(start, Some(offset));
                        targets.set(offset, Some(start));
                        proof {
                            lemma_new_pair(prog, old_targets, targets@, start as int, offset as int);
                        }
                    },
                    None => {
                        return Err(ResolveError::UnmatchedLoopEnd(offset));
                    },
                }
            },
            _ => {
                proof {
                    lemma_no_new_pair(prog, targets@, offset as int);
                }
            },
        }
        offset = offset + 1;
    }
    match starts.pop() {
        Some(start) => Err(ResolveError::UnmatchedLoopStart(start)),
        None => {
            proof {
                assert forall|a: int, b: int| 0 <= a < n && 0 <= b < n implies #[trigger] partners(
                    prog,
                    a,
                    b,
                ) == closed_before(prog, a, b, n as int) by {}
            }
            Ok(JumpTable { targets })
        },
    }
}

} // verus!
