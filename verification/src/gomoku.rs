//! The Gomoku (five-in-a-row) environment: a rank-2 board of participant
//! marks, occupancy-based move legality, and win detection by convolving
//! per-participant occupancy masks against four fixed kernels.

use vstd::prelude::*;

use crate::agent::Agent;
use crate::env::{Env, EnvResult};
use crate::matrix::{lemma_flat2_bound, lemma_size2};
use crate::ndarray::{lemma_size1, NDArray};
use crate::win::{
    anti_kernel, diag_kernel, has_run, lemma_cell_anti, lemma_cell_axis0, lemma_cell_axis1,
    lemma_cell_diag, masks, ones_kernel, run_anti, run_axis0, run_axis1, run_diag,
};

verus! {

/// A Gomoku game between exactly two participants on a `width x height`
/// board. A board cell holds 0 when empty, or the mark (1 or 2) of the
/// participant who took it.
pub struct GomokuEnv {
    /// Run length required to win.
    pub win_condition: usize,
    /// The board: a rank-2 array of shape `[width, height]`.
    pub board: NDArray<2>,
    /// Board dimensions `(width, height)`.
    pub size: (usize, usize),
    /// The two participants, in the order they were bound to marks 1 and 2.
    pub agents: (Agent, Agent),
}

impl GomokuEnv {
    /// Well-formedness: a live board of the declared dimensions, a positive
    /// win condition, and two distinct participants.
    pub open spec fn wf(&self) -> bool {
        &&& self.board.wf()
        &&& self.board.rows() == self.size.0
        &&& self.board.cols() == self.size.1
        &&& self.win_condition >= 1
        &&& self.agents.0.id@ != self.agents.1.id@
    }

    /// `a` is one of the two bound participants.
    pub open spec fn is_agent(&self, a: Agent) -> bool {
        a.id@ == self.agents.0.id@ || a.id@ == self.agents.1.id@
    }

    /// The mark bound to participant `a`: 1 for the first participant, 2 for
    /// the second.
    pub open spec fn mark_of(&self, a: Agent) -> usize {
        if a.id@ == self.agents.0.id@ {
            1usize
        } else {
            2usize
        }
    }

    /// An action is legal exactly when it targets an empty on-board cell.
    pub open spec fn spec_legal(&self, x: int, y: int) -> bool {
        &&& 0 <= x < self.size.0
        &&& 0 <= y < self.size.1
        &&& self.board.at2(x, y) == 0
    }

    /// The game is over: some participant's mark has a run of the required
    /// length.
    pub open spec fn spec_done(&self) -> bool {
        ||| has_run(self.board, 1, self.win_condition as int)
        ||| has_run(self.board, 2, self.win_condition as int)
    }
}

/// On an all-zero board no mark has a run of positive length.
proof fn lemma_zero_board_no_run(b: NDArray<2>, m: usize, k: int)
    requires
        b.wf(),
        forall|i: int| 0 <= i < b.spec_data().len() ==> b.spec_data()[i] == 0,
        m != 0,
        k >= 1,
    ensures
        !has_run(b, m, k),
{
    b.lemma_area();
    assert forall|x: int, y: int| !run_axis1(b, m, k, x, y) by {
        if run_axis1(b, m, k, x, y) {
            lemma_flat2_bound(x, y, b.rows(), b.cols());
            assert(b.at2(x, y) == m);
            assert(b.at2(x, y) == 0);
        }
    }
    assert forall|x: int, y: int| !run_axis0(b, m, k, x, y) by {
        if run_axis0(b, m, k, x, y) {
            lemma_flat2_bound(x, y, b.rows(), b.cols());
            assert(b.at2(x, y) == m);
            assert(b.at2(x, y) == 0);
        }
    }
    assert forall|x: int, y: int| !run_diag(b, m, k, x, y) by {
        if run_diag(b, m, k, x, y) {
            lemma_flat2_bound(x, y, b.rows(), b.cols());
            assert(b.at2(x, y) == m);
            assert(b.at2(x, y) == 0);
        }
    }
    assert forall|x: int, y: int| !run_anti(b, m, k, x, y) by {
        if run_anti(b, m, k, x, y) {
            lemma_flat2_bound(x, y + k - 1, b.rows(), b.cols());
            assert(b.at2(x, y + k - 1) == m);
            assert(b.at2(x, y + k - 1) == 0);
        }
    }
}

/// The binary occupancy mask of `b` for mark `m`: same shape, 1 where the
/// board holds `m`, 0 elsewhere.
fn occupancy_mask(b: &NDArray<2>, m: usize) -> (r: NDArray<2>)
    requires
        b.wf(),
    ensures
        masks(*b, r, m),
{
    proof {
        b.lemma_area();
        assert(b.spec_shape() =~= seq![b.spec_shape()[0], b.spec_shape()[1]]);
        lemma_size2(b.spec_shape()[0], b.spec_shape()[1]);
    }
    let shape = *b.shape();
    let s0 = shape[0];
    let s1 = shape[1];
    let mut r = NDArray::<2>::zeros(&shape);
    let mut i: usize = 0;
    while i < s0
        invariant
            b.wf(),
            r.wf(),
            s0 == b.rows() && s1 == b.cols(),
            r.spec_shape() == b.spec_shape(),
            0 <= i <= s0,
            forall|x: int, y: int|
                0 <= x < i && 0 <= y < s1 ==> r.at2(x, y) == (if b.at2(x, y) == m {
                    1usize
                } else {
                    0usize
                }),
        decreases s0 - i,
    {
        let mut j: usize = 0;
        while j < s1
            invariant
                b.wf(),
                r.wf(),
                s0 == b.rows() && s1 == b.cols(),
                r.spec_shape() == b.spec_shape(),
                0 <= i < s0,
                0 <= j <= s1,
                forall|x: int, y: int|
                    0 <= x < i && 0 <= y < s1 ==> r.at2(x, y) == (if b.at2(x, y) == m {
                        1usize
                    } else {
                        0usize
                    }),
                forall|y: int|
                    0 <= y < j ==> r.at2(i as int, y) == (if b.at2(i as int, y) == m {
                        1usize
                    } else {
                        0usize
                    }),
            decreases s1 - j,
        {
            let v: usize = if b.get2(i, j) == m {
                1
            } else {
                0
            };
            r.set2(i, j, v);
            j += 1;
        }
        i += 1;
    }
    r
}

/// Whether some cell of `t` holds at least `k`.
fn any_cell_at_least(t: &NDArray<2>, k: usize) -> (r: bool)
    requires
        t.wf(),
    ensures
        r == exists|x: int, y: int| t.valid2(x, y) && t.at2(x, y) >= k,
{
    let shape = *t.shape();
    let s0 = shape[0];
    let s1 = shape[1];
    let mut i: usize = 0;
    while i < s0
        invariant
            t.wf(),
            s0 == t.rows() && s1 == t.cols(),
            0 <= i <= s0,
            forall|x: int, y: int| 0 <= x < i && 0 <= y < s1 ==> t.at2(x, y) < k,
        decreases s0 - i,
    {
        let mut j: usize = 0;
        while j < s1
            invariant
                t.wf(),
                s0 == t.rows() && s1 == t.cols(),
                0 <= i < s0,
                0 <= j <= s1,
                forall|x: int, y: int| 0 <= x < i && 0 <= y < s1 ==> t.at2(x, y) < k,
                forall|y: int| 0 <= y < j ==> t.at2(i as int, y) < k,
            decreases s1 - j,
        {
            if t.get2(i, j) >= k {
                proof {
                    assert(t.valid2(i as int, j as int) && t.at2(i as int, j as int) >= k);
                }
                return true;
            }
            j += 1;
        }
        i += 1;
    }
    false
}

impl GomokuEnv {
    /// Builds an environment for a `size.0 x size.1` board, the given win
    /// condition, and exactly two participants, bound in order to marks 1
    /// and 2.
    pub fn new(size: (usize, usize), win_condition: usize, agents: (&Agent, &Agent)) -> (r:
        GomokuEnv)
        requires
            size.0 * size.1 <= usize::MAX,
            win_condition >= 1,
            agents.0.id@ != agents.1.id@,
        ensures
            r.wf(),
            r.size == size,
            r.win_condition == win_condition,
            r.agents.0.id@ == agents.0.id@,
            r.agents.1.id@ == agents.1.id@,
            r.board.spec_shape() == seq![size.0, size.1],
            forall|i: int| 0 <= i < r.board.spec_data().len() ==> r.board.spec_data()[i] == 0,
            !r.spec_done(),
    {
        let shape = [size.0, size.1];
        proof {
            assert(shape@ =~= seq![size.0, size.1]);
            lemma_size2(size.0, size.1);
        }
        let board = NDArray::<2>::zeros(&shape);
        let r = GomokuEnv {
            win_condition,
            board,
            size,
            agents: (agents.0.clone(), agents.1.clone()),
        };
        proof {
            lemma_zero_board_no_run(r.board, 1, win_condition as int);
            lemma_zero_board_no_run(r.board, 2, win_condition as int);
        }
        r
    }

    /// Whether `action` (a two-element coordinate) targets an empty on-board
    /// cell. Anything else makes the action a no-op for `step`.
    pub fn check_action(&self, action: &NDArray<1>) -> (r: bool)
        requires
            self.wf(),
            action.wf(),
            action.spec_shape() == seq![2usize],
        ensures
            r == self.spec_legal(
                action.spec_data()[0] as int,
                action.spec_data()[1] as int,
            ),
    {
        proof {
            lemma_size1(2);
        }
        let coords = action.into_flat_vec();
        let x = coords[0];
        let y = coords[1];
        if x >= self.size.0 || y >= self.size.1 {
            return false;
        }
        self.board.get2(x, y) == 0
    }

    /// The mark bound to `agent`.
    fn mark_lookup(&self, agent: &Agent) -> (r: usize)
        requires
            self.is_agent(*agent),
        ensures
            r == self.mark_of(*agent),
    {
        if self.agents.0.id == agent.id {
            1
        } else {
            2
        }
    }

    /// Whether mark `m` has a run of the required length anywhere on the
    /// board, detected by convolving the occupancy mask with the four fixed
    /// kernels.
    fn has_run_exec(&self, m: usize) -> (r: bool)
        requires
            self.wf(),
        ensures
            r == has_run(self.board, m, self.win_condition as int),
    {
        let k = self.win_condition;
        let ghost bb = self.board;
        let ghost ki = k as int;
        let mask = occupancy_mask(&self.board, m);
        proof {
            self.board.lemma_area();
        }
        // Second-axis runs: all-ones kernel of shape [1, k].
        let kern1_shape = [1usize, k];
        proof {
            assert(kern1_shape@ =~= seq![1usize, k]);
            lemma_size2(1, k);
        }
        let kern1 = NDArray::<2>::ones(&kern1_shape);
        proof {
            kern1.lemma_area();
            assert forall|p: int, q: int| kern1.valid2(p, q) implies kern1.at2(p, q) == 1usize by {
                lemma_flat2_bound(p, q, kern1.rows(), kern1.cols());
            }
            assert(ones_kernel(kern1, 1, ki));
            assert forall|x: int, y: int|
                0 <= x <= mask.rows() - kern1.rows() && 0 <= y <= mask.cols()
                    - kern1.cols() implies mask.conv_value(kern1, x, y) <= usize::MAX by {
                lemma_cell_axis1(bb, mask, kern1, m, ki, x, y);
            }
        }
        match mask.conv2d(&kern1) {
            Ok(out) => {
                if any_cell_at_least(&out, k) {
                    proof {
                        let (x, y) = choose|x: int, y: int|
                            out.valid2(x, y) && out.at2(x, y) >= k;
                        lemma_cell_axis1(bb, mask, kern1, m, ki, x, y);
                        assert(run_axis1(bb, m, ki, x, y));
                    }
                    return true;
                }
                proof {
                    assert forall|x: int, y: int| !run_axis1(bb, m, ki, x, y) by {
                        if run_axis1(bb, m, ki, x, y) {
                            lemma_cell_axis1(bb, mask, kern1, m, ki, x, y);
                            assert(out.valid2(x, y));
                            assert(out.at2(x, y) >= k);
                        }
                    }
                }
            }
            Err(_) => {
                proof {
                    assert forall|x: int, y: int| !run_axis1(bb, m, ki, x, y) by {
                        if run_axis1(bb, m, ki, x, y) {
                            assert(1 <= kern1.rows() <= mask.rows());
                            assert(1 <= kern1.cols() <= mask.cols());
                        }
                    }
                }
            }
        }
        // First-axis runs: all-ones kernel of shape [k, 1].
        let kern0_shape = [k, 1usize];
        proof {
            assert(kern0_shape@ =~= seq![k, 1usize]);
            lemma_size2(k, 1);
            assert((k as nat) * (1 as nat) == k as nat) by (nonlinear_arith);
        }
        let kern0 = NDArray::<2>::ones(&kern0_shape);
        proof {
            kern0.lemma_area();
            assert forall|p: int, q: int| kern0.valid2(p, q) implies kern0.at2(p, q) == 1usize by {
                lemma_flat2_bound(p, q, kern0.rows(), kern0.cols());
            }
            assert(ones_kernel(kern0, ki, 1));
            assert forall|x: int, y: int|
                0 <= x <= mask.rows() - kern0.rows() && 0 <= y <= mask.cols()
                    - kern0.cols() implies mask.conv_value(kern0, x, y) <= usize::MAX by {
                lemma_cell_axis0(bb, mask, kern0, m, ki, x, y);
            }
        }
        match mask.conv2d(&kern0) {
            Ok(out) => {
                if any_cell_at_least(&out, k) {
                    proof {
                        let (x, y) = choose|x: int, y: int|
                            out.valid2(x, y) && out.at2(x, y) >= k;
                        lemma_cell_axis0(bb, mask, kern0, m, ki, x, y);
                        assert(run_axis0(bb, m, ki, x, y));
                    }
                    return true;
                }
                proof {
                    assert forall|x: int, y: int| !run_axis0(bb, m, ki, x, y) by {
                        if run_axis0(bb, m, ki, x, y) {
                            lemma_cell_axis0(bb, mask, kern0, m, ki, x, y);
                            assert(out.valid2(x, y));
                            assert(out.at2(x, y) >= k);
                        }
                    }
                }
            }
            Err(_) => {
                proof {
                    assert forall|x: int, y: int| !run_axis0(bb, m, ki, x, y) by {
                        if run_axis0(bb, m, ki, x, y) {
                            assert(1 <= kern0.rows() <= mask.rows());
                            assert(1 <= kern0.cols() <= mask.cols());
                        }
                    }
                }
            }
        }
        // Diagonal runs need a k x k window on the board.
        if k <= self.size.0 && k <= self.size.1 {
            proof {
                assert((k as int) * (k as int) <= self.board.rows() * self.board.cols())
                    by (nonlinear_arith)
                    requires
                        0 <= k as int <= self.board.rows(),
                        0 <= k as int <= self.board.cols(),
                ;
            }
            // Main diagonal: the k x k identity kernel.
            let ident = NDArray::<2>::identity(k);
            proof {
                assert(diag_kernel(ident, ki));
                assert forall|x: int, y: int|
                    0 <= x <= mask.rows() - ident.rows() && 0 <= y <= mask.cols()
                        - ident.cols() implies mask.conv_value(ident, x, y) <= usize::MAX by {
                    lemma_cell_diag(bb, mask, ident, m, ki, x, y);
                }
            }
            match mask.conv2d(&ident) {
                Ok(out) => {
                    if any_cell_at_least(&out, k) {
                        proof {
                            let (x, y) = choose|x: int, y: int|
                                out.valid2(x, y) && out.at2(x, y) >= k;
                            lemma_cell_diag(bb, mask, ident, m, ki, x, y);
                            assert(run_diag(bb, m, ki, x, y));
                        }
                        return true;
                    }
                    proof {
                        assert forall|x: int, y: int| !run_diag(bb, m, ki, x, y) by {
                            if run_diag(bb, m, ki, x, y) {
                                lemma_cell_diag(bb, mask, ident, m, ki, x, y);
                                assert(out.valid2(x, y));
                                assert(out.at2(x, y) >= k);
                            }
                        }
                    }
                }
                Err(_) => {
                    proof {
                        assert forall|x: int, y: int| !run_diag(bb, m, ki, x, y) by {
                            if run_diag(bb, m, ki, x, y) {
                                assert(1 <= ident.rows() <= mask.rows());
                                assert(1 <= ident.cols() <= mask.cols());
                            }
                        }
                    }
                }
            }
            // Anti-diagonal: the horizontally flipped identity kernel.
            let ident2 = NDArray::<2>::identity(k);
            let flipped = ident2.fliplr();
            proof {
                assert forall|p: int, q: int|
                    flipped.valid2(p, q) implies flipped.at2(p, q) == (if p + q == ki - 1 {
                    1usize
                } else {
                    0usize
                }) by {
                    assert(ident2.valid2(p, ki - 1 - q));
                    assert(flipped.at2(p, q) == ident2.at2(p, ki - 1 - q));
                }
                assert(anti_kernel(flipped, ki));
                assert forall|x: int, y: int|
                    0 <= x <= mask.rows() - flipped.rows() && 0 <= y <= mask.cols()
                        - flipped.cols() implies mask.conv_value(flipped, x, y) <= usize::MAX by {
                    lemma_cell_anti(bb, mask, flipped, m, ki, x, y);
                }
            }
            match mask.conv2d(&flipped) {
                Ok(out) => {
                    if any_cell_at_least(&out, k) {
                        proof {
                            let (x, y) = choose|x: int, y: int|
                                out.valid2(x, y) && out.at2(x, y) >= k;
                            lemma_cell_anti(bb, mask, flipped, m, ki, x, y);
                            assert(run_anti(bb, m, ki, x, y));
                        }
                        return true;
                    }
                    proof {
                        assert forall|x: int, y: int| !run_anti(bb, m, ki, x, y) by {
                            if run_anti(bb, m, ki, x, y) {
                                lemma_cell_anti(bb, mask, flipped, m, ki, x, y);
                                assert(out.valid2(x, y));
                                assert(out.at2(x, y) >= k);
                            }
                        }
                    }
                }
                Err(_) => {
                    proof {
                        assert forall|x: int, y: int| !run_anti(bb, m, ki, x, y) by {
                            if run_anti(bb, m, ki, x, y) {
                                assert(1 <= flipped.rows() <= mask.rows());
                                assert(1 <= flipped.cols() <= mask.cols());
                            }
                        }
                    }
                }
            }
        } else {
            proof {
                assert forall|x: int, y: int| !run_diag(bb, m, ki, x, y) by {
                    if run_diag(bb, m, ki, x, y) {
                        assert(ki <= bb.rows() && ki <= bb.cols());
                    }
                }
                assert forall|x: int, y: int| !run_anti(bb, m, ki, x, y) by {
                    if run_anti(bb, m, ki, x, y) {
                        assert(ki <= bb.rows() && ki <= bb.cols());
                    }
                }
            }
        }
        proof {
            assert(!has_run(bb, m, ki));
        }
        false
    }

    /// The winning participant's mark, if any participant has a run of the
    /// required length.
    pub fn check_win(&self) -> (r: Option<usize>)
        requires
            self.wf(),
        ensures
            match r {
                Some(m) => (m == 1usize || m == 2usize) && has_run(
                    self.board,
                    m,
                    self.win_condition as int,
                ),
                None => !self.spec_done(),
            },
    {
        if self.has_run_exec(1) {
            return Some(1);
        }
        if self.has_run_exec(2) {
            return Some(2);
        }
        None
    }
}

/// What every `reset` hands back for a `w x h` board: a fresh all-zero board
/// state, no reward, and a false terminal flag.
pub open spec fn is_reset_result(r: EnvResult<NDArray<2>>, w: usize, h: usize) -> bool {
    &&& r.state.wf()
    &&& r.state.spec_shape() == seq![w, h]
    &&& forall|i: int| 0 <= i < r.state.spec_data().len() ==> r.state.spec_data()[i] == 0
    &&& !r.done
    &&& r.reward == 0
}

/// Law: `reset` is idempotent — any two reset results for the same board
/// dimensions carry identical all-zero board state and a false terminal
/// flag.
pub proof fn lemma_reset_idempotent(
    r1: EnvResult<NDArray<2>>,
    r2: EnvResult<NDArray<2>>,
    w: usize,
    h: usize,
)
    requires
        is_reset_result(r1, w, h),
        is_reset_result(r2, w, h),
    ensures
        r1.state.spec_data() == r2.state.spec_data(),
        r1.state.spec_shape() == r2.state.spec_shape(),
        r1.done == r2.done && !r1.done,
        r1.reward == r2.reward,
{
    assert(r1.state.spec_data() =~= r2.state.spec_data());
}

impl Env for GomokuEnv {
    type Action = NDArray<1>;

    type State = NDArray<2>;

    open spec fn inv(&self) -> bool {
        self.wf()
    }

    open spec fn step_ok(&self, agent: &Agent, action: &NDArray<1>) -> bool {
        &&& self.is_agent(*agent)
        &&& action.wf()
        &&& action.spec_shape() == seq![2usize]
    }

    /// Places the participant's mark at the action's coordinates when the
    /// game is not yet over and the cell is an empty on-board cell; any
    /// other action leaves the board unchanged. The returned record carries
    /// a copy of the board and says whether the game is now over.
    fn step(&mut self, agent: &Agent, action: NDArray<1>) -> (r: EnvResult<NDArray<2>>)
        ensures
            final(self).wf(),
            final(self).size == old(self).size,
            final(self).win_condition == old(self).win_condition,
            final(self).agents == old(self).agents,
            ({
                let x = action.spec_data()[0] as int;
                let y = action.spec_data()[1] as int;
                if !old(self).spec_done() && old(self).spec_legal(x, y) {
                    final(self).board.spec_shape() == old(self).board.spec_shape()
                        && final(self).board.spec_data() == old(self).board.spec_data().update(
                        x * old(self).board.cols() + y,
                        old(self).mark_of(*agent),
                    )
                } else {
                    final(self).board == old(self).board
                }
            }),
            r.state.spec_data() == final(self).board.spec_data(),
            r.state.spec_shape() == final(self).board.spec_shape(),
            r.done == final(self).spec_done(),
            ({
                let x = action.spec_data()[0] as int;
                let y = action.spec_data()[1] as int;
                !(!old(self).spec_done() && old(self).spec_legal(x, y)) ==> r.done == old(
                    self,
                ).spec_done()
            }),
            r.reward == 0,
            r.info@ == "Gomoku v0"@,
    {
        let terminal = self.check_win().is_some();
        let legal = self.check_action(&action);
        if !terminal && legal {
            let m = self.mark_lookup(agent);
            proof {
                lemma_size1(2);
            }
            let coords = action.into_flat_vec();
            self.board.set2(coords[0], coords[1], m);
        }
        let done = self.check_win().is_some();
        let state = self.board.clone();
        EnvResult { state, reward: 0, done, info: "Gomoku v0".to_owned() }
    }

    /// Replaces the board with an all-zero one of the configured dimensions
    /// and reports the fresh, non-terminal state.
    fn reset(&mut self) -> (r: EnvResult<NDArray<2>>)
        ensures
            final(self).wf(),
            final(self).size == old(self).size,
            final(self).win_condition == old(self).win_condition,
            final(self).agents == old(self).agents,
            !final(self).spec_done(),
            is_reset_result(r, old(self).size.0, old(self).size.1),
            r.state.spec_data() == final(self).board.spec_data(),
            r.state.spec_shape() == final(self).board.spec_shape(),
            r.info@ == "Gomoku v0"@,
    {
        proof {
            self.board.lemma_area();
            assert(self.board.spec_shape() =~= seq![self.size.0, self.size.1]);
            lemma_size2(self.size.0, self.size.1);
        }
        let shape = [self.size.0, self.size.1];
        proof {
            assert(shape@ =~= seq![self.size.0, self.size.1]);
        }
        self.board = NDArray::<2>::zeros(&shape);
        proof {
            lemma_zero_board_no_run(self.board, 1, self.win_condition as int);
            lemma_zero_board_no_run(self.board, 2, self.win_condition as int);
        }
        let state = self.board.clone();
        EnvResult { state, reward: 0, done: false, info: "Gomoku v0".to_owned() }
    }
}

} // verus!
