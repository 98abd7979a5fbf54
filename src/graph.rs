//! The deduplicated state graph and the backward propagation of labels.
use vstd::prelude::*;
use crate::game::{
    Action, GameState, Player, PositionModel, Progress, action_cell, empties_below, empty_count,
    legal_cells, lemma_legal_cells, lemma_next_empty_count, next_model, progress_of, winner,
};
use crate::outcome::{GameStateInfo, build_info};
use crate::code::{
    NUM_CODES, lemma_position_code_bounds, lemma_position_code_injective, position_code, state_code,
};
use crate::label::{has_child_below, label_of, lemma_has_child_below};

verus! {

/// One registered position: its children by action, the nodes that reach it
/// by one action, and its label once known.
pub struct GameStateGraphNode {
    pub state: GameState,
    /// Children in the order of the legal actions; always a prefix of them.
    pub actions_from_here: Vec<(Action, usize)>,
    /// Indices of the parents; they drive propagation only.
    pub actions_to_here: Vec<usize>,
    pub info: Option<GameStateInfo>,
}

/// Arena of nodes with a table from position code to node index.
pub struct Registry {
    pub nodes: Vec<GameStateGraphNode>,
    /// For each position code, the node holding that position, if any.
    pub index: Vec<Option<usize>>,
}

/// The node registered under code `c`, or -1.
pub open spec fn slot(reg: Registry, c: int) -> int {
    match reg.index@[c] {
        Some(i) => i as int,
        None => -1,
    }
}

/// The position held by node `i`.
pub open spec fn model_at(reg: Registry, i: int) -> PositionModel {
    reg.nodes@[i].state@
}

/// The index of the `j`-th child of node `i`.
pub open spec fn child_at(reg: Registry, i: int, j: int) -> int {
    reg.nodes@[i].actions_from_here@[j].1 as int
}

/// Every legal action of node `i` has its child linked.
pub open spec fn complete(reg: Registry, i: int) -> bool {
    reg.nodes@[i].actions_from_here@.len() == legal_cells(model_at(reg, i)).len()
}

/// Every linked child of node `i` is labeled.
pub open spec fn children_labeled(reg: Registry, i: int) -> bool {
    forall|j: int|
        0 <= j < reg.nodes@[i].actions_from_here@.len() ==> (#[trigger] reg.nodes@[child_at(
            reg,
            i,
            j,
        )]).info.is_some()
}

/// Node `i` is not waiting on propagation: if all its children are linked and
/// labeled, it is labeled too.
pub open spec fn settled(reg: Registry, i: int) -> bool {
    complete(reg, i) && children_labeled(reg, i) ==> reg.nodes@[i].info.is_some()
}

/// Node `p` is listed among the parents of node `c`.
pub open spec fn has_parent(reg: Registry, c: int, p: int) -> bool {
    listed_from(reg.nodes@[c].actions_to_here@, 0, p)
}

/// `p` occurs in `ps` at position `k` or later.
pub open spec fn listed_from(ps: Seq<usize>, k: int, p: int) -> bool {
    exists|q: int| k <= q < ps.len() && ps[q] as int == p
}

/// Node `i` is consistent: its children are the successors by its first legal
/// actions and list it as a parent, each parent has one more empty cell, and
/// its label, if set, is the position's label.
#[verifier::opaque]
pub open spec fn node_wf(reg: Registry, i: int) -> bool {
    let n = reg.nodes@[i];
    let m = n.state@;
    let acts = legal_cells(m);
    &&& n.actions_from_here@.len() <= acts.len()
    &&& forall|j: int|
        0 <= j < n.actions_from_here@.len() ==> {
            let (a, c) = #[trigger] n.actions_from_here@[j];
            &&& action_cell(a) == acts[j]
            &&& a.row < 3
            &&& a.col < 3
            &&& c < reg.nodes@.len()
            &&& model_at(reg, c as int) == next_model(m, acts[j])
            &&& has_parent(reg, c as int, i)
        }
    &&& forall|j: int|
        0 <= j < n.actions_to_here@.len() ==> {
            let p = #[trigger] n.actions_to_here@[j];
            &&& p < reg.nodes@.len()
            &&& empty_count(model_at(reg, p as int)) == empty_count(m) + 1
        }
    &&& n.info.is_some() ==> n.info.unwrap() == label_of(m)
}

/// The registry's invariant: the table and the arena agree (one node per
/// position), edges follow the legal actions, and every label is the
/// position's label by backward induction.
#[verifier::opaque]
pub open spec fn wf(reg: Registry) -> bool {
    &&& reg.index@.len() == NUM_CODES
    &&& forall|c: int|
        0 <= c < NUM_CODES && #[trigger] slot(reg, c) >= 0 ==> slot(reg, c) < reg.nodes@.len()
            && position_code(model_at(reg, slot(reg, c))) == c
    &&& forall|i: int|
        0 <= i < reg.nodes@.len() ==> slot(reg, position_code(#[trigger] model_at(reg, i))) == i
    &&& forall|i: int| 0 <= i < reg.nodes@.len() ==> #[trigger] node_wf(reg, i)
}

/// Propagation changes labels only.
pub open spec fn same_shape(a: Registry, b: Registry) -> bool {
    &&& a.index@ == b.index@
    &&& a.nodes@.len() == b.nodes@.len()
    &&& forall|i: int|
        0 <= i < a.nodes@.len() ==> {
            &&& (#[trigger] b.nodes@[i]).state == a.nodes@[i].state
            &&& b.nodes@[i].actions_from_here@ == a.nodes@[i].actions_from_here@
            &&& b.nodes@[i].actions_to_here@ == a.nodes@[i].actions_to_here@
            &&& a.nodes@[i].info.is_some() ==> b.nodes@[i].info == a.nodes@[i].info
        }
}

/// What the invariant says of the `j`-th child of node `n`.
proof fn lemma_child(reg: Registry, n: int, j: int)
    requires
        wf(reg),
        0 <= n < reg.nodes@.len(),
        0 <= j < reg.nodes@[n].actions_from_here@.len(),
    ensures
        0 <= child_at(reg, n, j) < reg.nodes@.len(),
        j < legal_cells(model_at(reg, n)).len(),
        model_at(reg, child_at(reg, n, j)) == next_model(
            model_at(reg, n),
            legal_cells(model_at(reg, n))[j],
        ),
        has_parent(reg, child_at(reg, n, j), n),
        reg.nodes@[child_at(reg, n, j)].info.is_some() ==> reg.nodes@[child_at(
            reg,
            n,
            j,
        )].info.unwrap() == label_of(model_at(reg, child_at(reg, n, j))),
{
    reveal(wf);
    reveal(node_wf);
    assert(node_wf(reg, n));
    let pair = reg.nodes@[n].actions_from_here@[j];
    assert(node_wf(reg, child_at(reg, n, j)));
}

/// What the invariant says of the `k`-th parent of node `n`.
proof fn lemma_parent(reg: Registry, n: int, k: int)
    requires
        wf(reg),
        0 <= n < reg.nodes@.len(),
        0 <= k < reg.nodes@[n].actions_to_here@.len(),
    ensures
        reg.nodes@[n].actions_to_here@[k] < reg.nodes@.len(),
        empty_count(model_at(reg, reg.nodes@[n].actions_to_here@[k] as int)) == empty_count(
            model_at(reg, n),
        ) + 1,
{
    reveal(wf);
    reveal(node_wf);
    assert(node_wf(reg, n));
    let p = reg.nodes@[n].actions_to_here@[k];
}

pub proof fn lemma_empty_count_bounds(m: PositionModel)
    ensures
        0 <= empty_count(m) <= 9,
{
}

pub open spec fn seen_below(reg: Registry, n: int, j: int, l: GameStateInfo) -> bool {
    exists|q: int| 0 <= q < j && (#[trigger] reg.nodes@[child_at(reg, n, q)]).info == Some(l)
}

/// Some child of node `n` is labeled `l`.
pub open spec fn seen(reg: Registry, n: int, l: GameStateInfo) -> bool {
    seen_below(reg, n, reg.nodes@[n].actions_from_here@.len() as int, l)
}

/// With every child linked and labeled, the labels seen among the children
/// are exactly those of the positions one legal action away.
proof fn lemma_flags_match(reg: Registry, n: int)
    requires
        wf(reg),
        0 <= n < reg.nodes@.len(),
        complete(reg, n),
        children_labeled(reg, n),
        winner(model_at(reg, n)).is_none(),
    ensures
        forall|l: GameStateInfo| #[trigger] seen(reg, n, l) <==> has_child_below(model_at(reg, n), 9, l),
{
    reveal(wf);
    reveal(node_wf);
    let m = model_at(reg, n);
    let acts = empties_below(m, 9);
    assert(node_wf(reg, n));
    assert(legal_cells(m) == acts);
    let len = reg.nodes@[n].actions_from_here@.len();
    assert forall|q: int| 0 <= q < len implies (#[trigger] reg.nodes@[child_at(reg, n, q)]).info
        == Some(label_of(next_model(m, acts[q]))) by {
        let c = child_at(reg, n, q);
        let pair = reg.nodes@[n].actions_from_here@[q];
        assert(node_wf(reg, c));
        assert(reg.nodes@[c].info.is_some());
    }
    assert forall|l: GameStateInfo|
        (exists|q: int|
            0 <= q < len && (#[trigger] reg.nodes@[child_at(reg, n, q)]).info == Some(l))
            <==> has_child_below(m, 9, l) by {
        lemma_has_child_below(m, 9, l);
        if has_child_below(m, 9, l) {
            let j = choose|j: int|
                0 <= j < acts.len() && label_of(next_model(m, #[trigger] acts[j])) == l;
            assert(reg.nodes@[child_at(reg, n, j)].info == Some(l));
        }
        if exists|q: int| 0 <= q < len && (#[trigger] reg.nodes@[child_at(reg, n, q)]).info == Some(l) {
            let q = choose|q: int|
                0 <= q < len && (#[trigger] reg.nodes@[child_at(reg, n, q)]).info == Some(l);
            assert(label_of(next_model(m, acts[q])) == l);
        }
    }
}

proof fn lemma_node_wf_frame(reg0: Registry, reg1: Registry, i: int)
    requires
        wf(reg0),
        0 <= i < reg0.nodes@.len(),
        reg0.nodes@.len() <= reg1.nodes@.len(),
        forall|k: int|
            0 <= k < reg0.nodes@.len() ==> (#[trigger] reg1.nodes@[k]).state == reg0.nodes@[k].state,
        forall|k: int, p: int|
            0 <= k < reg0.nodes@.len() && #[trigger] has_parent(reg0, k, p) ==> has_parent(
                reg1,
                k,
                p,
            ),
        reg1.nodes@[i].actions_from_here@ == reg0.nodes@[i].actions_from_here@,
        reg1.nodes@[i].actions_to_here@ == reg0.nodes@[i].actions_to_here@,
        reg1.nodes@[i].info == reg0.nodes@[i].info || reg1.nodes@[i].info == Some(
            label_of(model_at(reg0, i)),
        ),
    ensures
        node_wf(reg1, i),
{
    reveal(wf);
    reveal(node_wf);
    assert(node_wf(reg0, i));
    let n0 = reg0.nodes@[i];
    let n1 = reg1.nodes@[i];
    assert(model_at(reg1, i) == model_at(reg0, i));
    assert forall|j: int| 0 <= j < n1.actions_from_here@.len() implies {
        let (a, c) = #[trigger] n1.actions_from_here@[j];
        &&& c < reg1.nodes@.len()
        &&& model_at(reg1, c as int) == model_at(reg0, c as int)
        &&& has_parent(reg1, c as int, i)
    } by {
        let (a, c) = n0.actions_from_here@[j];
        assert(n1.actions_from_here@[j] == n0.actions_from_here@[j]);
        assert(c < reg0.nodes@.len());
        assert(reg1.nodes@[c as int].state == reg0.nodes@[c as int].state);
        assert(has_parent(reg0, c as int, i));
    }
    assert forall|j: int| 0 <= j < n1.actions_to_here@.len() implies {
        let p = #[trigger] n1.actions_to_here@[j];
        &&& p < reg1.nodes@.len()
        &&& model_at(reg1, p as int) == model_at(reg0, p as int)
    } by {
        let p = n0.actions_to_here@[j];
        assert(n1.actions_to_here@[j] == p);
        assert(p < reg0.nodes@.len());
        assert(reg1.nodes@[p as int].state == reg0.nodes@[p as int].state);
    }
}

/// Labeling node `n` keeps the invariant and can unsettle only its parents.
proof fn lemma_set_label(reg0: Registry, reg1: Registry, n: int)
    requires
        wf(reg0),
        0 <= n < reg0.nodes@.len(),
        reg0.nodes@[n].info.is_none(),
        same_shape(reg0, reg1),
        forall|i: int| 0 <= i < reg0.nodes@.len() && i != n ==> reg1.nodes@[i] == reg0.nodes@[i],
        reg1.nodes@[n].info == Some(label_of(model_at(reg0, n))),
    ensures
        wf(reg1),
{
    reveal(wf);
    reveal(node_wf);
    assert forall|i: int| 0 <= i < reg1.nodes@.len() implies #[trigger] node_wf(reg1, i) by {
        assert forall|k: int, p: int|
            0 <= k < reg0.nodes@.len() && #[trigger] has_parent(reg0, k, p) implies has_parent(
                reg1,
                k,
                p,
            ) by {
            assert(reg1.nodes@[k].actions_to_here@ == reg0.nodes@[k].actions_to_here@);
        }
        lemma_node_wf_frame(reg0, reg1, i);
    }
    assert forall|i: int|
        0 <= i < reg1.nodes@.len() implies slot(reg1, position_code(#[trigger] model_at(reg1, i)))
        == i by {
        assert(model_at(reg1, i) == model_at(reg0, i));
    }
    assert forall|c: int| 0 <= c < NUM_CODES && #[trigger] slot(reg1, c) >= 0 implies slot(reg1, c)
        < reg1.nodes@.len() && position_code(model_at(reg1, slot(reg1, c))) == c by {
        assert(slot(reg0, c) >= 0);
        assert(model_at(reg1, slot(reg1, c)) == model_at(reg0, slot(reg0, c)));
    }
}

proof fn lemma_set_label_settled(reg0: Registry, reg1: Registry, n: int)
    requires
        wf(reg0),
        0 <= n < reg0.nodes@.len(),
        reg0.nodes@[n].info.is_none(),
        same_shape(reg0, reg1),
        forall|i: int| 0 <= i < reg0.nodes@.len() && i != n ==> reg1.nodes@[i] == reg0.nodes@[i],
        reg1.nodes@[n].info == Some(label_of(model_at(reg0, n))),
    ensures
        forall|i: int|
            0 <= i < reg1.nodes@.len() && !#[trigger] settled(reg1, i) ==> i != n && (!settled(
                reg0,
                i,
            ) || has_parent(reg0, n, i)),
{
    reveal(wf);
    reveal(node_wf);
    assert forall|i: int|
        0 <= i < reg1.nodes@.len() && !#[trigger] settled(reg1, i) implies i != n && (!settled(
            reg0,
            i,
        ) || has_parent(reg0, n, i)) by {
        if settled(reg0, i) && i != n {
            assert(reg1.nodes@[i] == reg0.nodes@[i]);
            assert(model_at(reg1, i) == model_at(reg0, i));
            assert(complete(reg0, i));
            assert(!children_labeled(reg0, i));
            let j = choose|j: int|
                0 <= j < reg0.nodes@[i].actions_from_here@.len() && !(#[trigger] reg0.nodes@[child_at(
                    reg0,
                    i,
                    j,
                )]).info.is_some();
            assert(node_wf(reg0, i));
            let pair = reg0.nodes@[i].actions_from_here@[j];
            assert(reg1.nodes@[child_at(reg1, i, j)].info.is_some());
            assert(child_at(reg0, i, j) == n);
            assert(has_parent(reg0, n, i));
        }
        if i == n {
            assert(settled(reg1, i));
        }
    }
}

/// Reads the children's labels: whether all are present, and which occur.
fn summarize_children(reg: &Registry, n: usize) -> (r: (bool, bool, bool, bool, bool, bool, bool, bool))
    requires
        wf(*reg),
        n < reg.nodes@.len(),
    ensures
        r.0 <==> children_labeled(*reg, n as int),
        r.1 <==> seen(*reg, n as int, GameStateInfo::W),
        r.2 <==> seen(*reg, n as int, GameStateInfo::WD),
        r.3 <==> seen(*reg, n as int, GameStateInfo::WDL),
        r.4 <==> seen(*reg, n as int, GameStateInfo::WL),
        r.5 <==> seen(*reg, n as int, GameStateInfo::D),
        r.6 <==> seen(*reg, n as int, GameStateInfo::DL),
        r.7 <==> seen(*reg, n as int, GameStateInfo::L),
{
    let mut all_labeled = true;
    let mut has_w = false;
    let mut has_wd = false;
    let mut has_wdl = false;
    let mut has_wl = false;
    let mut has_d = false;
    let mut has_dl = false;
    let mut has_l = false;
    let len = reg.nodes[n].actions_from_here.len();
    let mut j: usize = 0;
    while j < len
        invariant
            wf(*reg),
            n < reg.nodes@.len(),
            len == reg.nodes@[n as int].actions_from_here@.len(),
            j <= len,
            all_labeled <==> forall|q: int|
                0 <= q < j ==> (#[trigger] reg.nodes@[child_at(*reg, n as int, q)]).info.is_some(),
            has_w <==> seen_below(*reg, n as int, j as int, GameStateInfo::W),
            has_wd <==> seen_below(*reg, n as int, j as int, GameStateInfo::WD),
            has_wdl <==> seen_below(*reg, n as int, j as int, GameStateInfo::WDL),
            has_wl <==> seen_below(*reg, n as int, j as int, GameStateInfo::WL),
            has_d <==> seen_below(*reg, n as int, j as int, GameStateInfo::D),
            has_dl <==> seen_below(*reg, n as int, j as int, GameStateInfo::DL),
            has_l <==> seen_below(*reg, n as int, j as int, GameStateInfo::L),
        decreases len - j,
    {
        proof {
            lemma_child(*reg, n as int, j as int);
        }
        let c = reg.nodes[n].actions_from_here[j].1;
        assert(c == child_at(*reg, n as int, j as int));
        match reg.nodes[c].info {
            None => all_labeled = false,
            Some(GameStateInfo::W) => has_w = true,
            Some(GameStateInfo::WD) => has_wd = true,
            Some(GameStateInfo::WDL) => has_wdl = true,
            Some(GameStateInfo::WL) => has_wl = true,
            Some(GameStateInfo::D) => has_d = true,
            Some(GameStateInfo::DL) => has_dl = true,
            Some(GameStateInfo::L) => has_l = true,
        }
        j = j + 1;
    }
    (all_labeled, has_w, has_wd, has_wdl, has_wl, has_d, has_dl, has_l)
}

/// Tries to label node `n` and, on success, its ancestors.
pub fn build_info_recursively(reg: &mut Registry, n: usize)
    requires
        wf(*old(reg)),
        n < old(reg).nodes@.len(),
    ensures
        wf(*final(reg)),
        same_shape(*old(reg), *final(reg)),
        forall|i: int|
            0 <= i < final(reg).nodes@.len() && !#[trigger] settled(*final(reg), i) ==> i != n
                && !settled(*old(reg), i),
    decreases 9 - empty_count(old(reg).nodes@[n as int].state@),
{
    let ghost reg0 = *reg;
    if reg.nodes[n].info.is_some() {
        return;
    }
    let actions = reg.nodes[n].state.possible_actions();
    if actions.len() != reg.nodes[n].actions_from_here.len() {
        return;
    }
    let ghost m = model_at(*reg, n as int);
    let (all_labeled, has_w, has_wd, has_wdl, has_wl, has_d, has_dl, has_l) = summarize_children(
        reg,
        n,
    );
    if !all_labeled {
        return;
    }
    let progress = reg.nodes[n].state.progress();
    let turn = reg.nodes[n].state.turn;
    let info = match progress {
        Progress::Ongoing => build_info((turn, has_w, has_wd, has_wdl, has_wl, has_d, has_dl, has_l)),
        Progress::Draw => GameStateInfo::D,
        Progress::Win(Player::You) => GameStateInfo::W,
        Progress::Win(Player::Opponent) => GameStateInfo::L,
    };
    proof {
        if progress == Progress::Ongoing {
            lemma_flags_match(reg0, n as int);
        }
    }
    assert(info == label_of(m));
    reg.nodes[n].info = Some(info);
    proof {
        lemma_set_label(reg0, *reg, n as int);
        lemma_set_label_settled(reg0, *reg, n as int);
    }
    let num_parents = reg.nodes[n].actions_to_here.len();
    let mut k: usize = 0;
    while k < num_parents
        invariant
            reg0 == *old(reg),
            wf(*reg),
            same_shape(reg0, *reg),
            n < reg.nodes@.len(),
            reg.nodes@[n as int].info.is_some(),
            num_parents == reg0.nodes@[n as int].actions_to_here@.len(),
            k <= num_parents,
            forall|i: int|
                0 <= i < reg.nodes@.len() && !#[trigger] settled(*reg, i) ==> i != n && (
                !settled(reg0, i) || listed_from(
                    reg0.nodes@[n as int].actions_to_here@,
                    k as int,
                    i,
                )),
        decreases num_parents - k,
    {
        let p = reg.nodes[n].actions_to_here[k];
        proof {
            lemma_parent(*reg, n as int, k as int);
            assert(reg.nodes@[n as int].actions_to_here@[k as int] == p);
            assert(model_at(*reg, n as int) == model_at(reg0, n as int));
            lemma_empty_count_bounds(model_at(reg0, n as int));
            lemma_empty_count_bounds(model_at(*reg, p as int));
        }
        build_info_recursively(reg, p);
        k = k + 1;
    }
}

proof fn lemma_settled_same(ra: Registry, rb: Registry, i: int)
    requires
        0 <= i < ra.nodes@.len(),
        i < rb.nodes@.len(),
        rb.nodes@[i].state == ra.nodes@[i].state,
        rb.nodes@[i].actions_from_here@ == ra.nodes@[i].actions_from_here@,
        rb.nodes@[i].info == ra.nodes@[i].info,
        forall|q: int|
            0 <= q < ra.nodes@[i].actions_from_here@.len() ==> rb.nodes@[child_at(
                ra,
                i,
                q,
            )].info == ra.nodes@[child_at(ra, i, q)].info,
    ensures
        complete(ra, i) == complete(rb, i),
        settled(ra, i) == settled(rb, i),
{
    assert(children_labeled(ra, i) == children_labeled(rb, i)) by {
        if children_labeled(ra, i) {
            assert forall|j: int|
                0 <= j < rb.nodes@[i].actions_from_here@.len() implies (#[trigger] rb.nodes@[child_at(
                    rb,
                    i,
                    j,
                )]).info.is_some() by {
                assert(ra.nodes@[child_at(ra, i, j)].info.is_some());
            }
        }
        if children_labeled(rb, i) {
            assert forall|j: int|
                0 <= j < ra.nodes@[i].actions_from_here@.len() implies (#[trigger] ra.nodes@[child_at(
                    ra,
                    i,
                    j,
                )]).info.is_some() by {
                assert(rb.nodes@[child_at(rb, i, j)].info.is_some());
            }
        }
    }
}

/// `to` is reached from `from` by exactly `d` legal actions.
pub open spec fn reachable_in(from: PositionModel, to: PositionModel, d: nat) -> bool
    decreases d,
{
    if d == 0 {
        to == from
    } else {
        exists|p: PositionModel, k: int|
            reachable_in(from, p, (d - 1) as nat) && legal_cells(p).contains(k)
                && #[trigger] next_model(p, k) == to
    }
}

/// `to` is reached from `from` by some sequence of legal actions.
pub open spec fn reachable(from: PositionModel, to: PositionModel) -> bool {
    exists|d: nat| #[trigger] reachable_in(from, to, d)
}

proof fn lemma_reach_step(a: PositionModel, p: PositionModel, k: int, d: nat)
    requires
        reachable_in(a, p, d),
        legal_cells(p).contains(k),
    ensures
        reachable_in(a, next_model(p, k), d + 1),
{
    assert(reachable_in(a, p, ((d + 1) - 1) as nat));
}

proof fn lemma_reach_trans(a: PositionModel, b: PositionModel, c: PositionModel, d1: nat, d2: nat)
    requires
        reachable_in(a, b, d1),
        reachable_in(b, c, d2),
    ensures
        reachable_in(a, c, d1 + d2),
    decreases d2,
{
    if d2 > 0 {
        let (p, k) = choose|p: PositionModel, k: int|
            reachable_in(b, p, (d2 - 1) as nat) && legal_cells(p).contains(k)
                && #[trigger] next_model(p, k) == c;
        lemma_reach_trans(a, b, p, d1, (d2 - 1) as nat);
        lemma_reach_step(a, p, k, (d1 + d2 - 1) as nat);
    }
}

/// In a registry whose nodes are all expanded, every position reachable from
/// a registered one is registered.
proof fn lemma_reachable_registered(reg: Registry, r: int, m: PositionModel, d: nat)
    requires
        wf(reg),
        0 <= r < reg.nodes@.len(),
        forall|i: int| 0 <= i < reg.nodes@.len() ==> #[trigger] complete(reg, i),
        reachable_in(model_at(reg, r), m, d),
    ensures
        exists|i: int| 0 <= i < reg.nodes@.len() && #[trigger] model_at(reg, i) == m,
    decreases d,
{
    if d == 0 {
        assert(model_at(reg, r) == m);
    } else {
        let (p, k) = choose|p: PositionModel, k: int|
            reachable_in(model_at(reg, r), p, (d - 1) as nat) && legal_cells(p).contains(k)
                && #[trigger] next_model(p, k) == m;
        lemma_reachable_registered(reg, r, p, (d - 1) as nat);
        let j = choose|j: int| 0 <= j < reg.nodes@.len() && #[trigger] model_at(reg, j) == p;
        let q = choose|q: int| 0 <= q < legal_cells(p).len() && legal_cells(p)[q] == k;
        assert(complete(reg, j));
        lemma_successors_registered(reg, j, q);
    }
}

/// One registry extends another: nodes are only added, positions kept,
/// children only appended, labels only set.
pub open spec fn grows(a: Registry, b: Registry) -> bool {
    &&& a.nodes@.len() <= b.nodes@.len()
    &&& forall|i: int|
        0 <= i < a.nodes@.len() ==> {
            &&& (#[trigger] b.nodes@[i]).state == a.nodes@[i].state
            &&& a.nodes@[i].actions_from_here@.len() <= b.nodes@[i].actions_from_here@.len()
            &&& a.nodes@[i].info.is_some() ==> b.nodes@[i].info == a.nodes@[i].info
        }
}

/// Registers a fresh node for a position that has none.
fn add_node(reg: &mut Registry, state: GameState) -> (r: usize)
    requires
        wf(*old(reg)),
        slot(*old(reg), position_code(state@)) == -1,
    ensures
        wf(*final(reg)),
        grows(*old(reg), *final(reg)),
        r == old(reg).nodes@.len(),
        final(reg).nodes@.len() == r + 1,
        forall|i: int| 0 <= i < r ==> #[trigger] final(reg).nodes@[i] == old(reg).nodes@[i],
        final(reg).nodes@[r as int].state == state,
        final(reg).nodes@[r as int].actions_from_here@.len() == 0,
        final(reg).nodes@[r as int].actions_to_here@.len() == 0,
        final(reg).nodes@[r as int].info.is_none(),
{
    let ghost reg0 = *reg;
    let code = state_code(&state);
    proof {
        reveal(wf);
    }
    let r = reg.nodes.len();
    reg.nodes.push(
        GameStateGraphNode {
            state,
            actions_from_here: Vec::new(),
            actions_to_here: Vec::new(),
            info: None,
        },
    );
    reg.index.set(code, Some(r));
    proof {
        let reg1 = *reg;
        reveal(wf);
        assert forall|i: int| 0 <= i < reg0.nodes@.len() implies #[trigger] node_wf(reg1, i) by {
            assert(reg1.nodes@[i] == reg0.nodes@[i]);
            assert forall|k: int, p: int|
                0 <= k < reg0.nodes@.len() && #[trigger] has_parent(reg0, k, p) implies has_parent(
                    reg1,
                    k,
                    p,
                ) by {
                assert(reg1.nodes@[k] == reg0.nodes@[k]);
            }
            lemma_node_wf_frame(reg0, reg1, i);
        }
        assert(node_wf(reg1, r as int)) by {
            reveal(node_wf);
        }
        assert forall|i: int| 0 <= i < reg1.nodes@.len() implies #[trigger] node_wf(reg1, i) by {
            if i < reg0.nodes@.len() {
            } else {
                assert(i == r);
            }
        }
        assert forall|i: int|
            0 <= i < reg1.nodes@.len() implies slot(reg1, position_code(#[trigger] model_at(reg1, i)))
            == i by {
            if i < r {
                assert(model_at(reg1, i) == model_at(reg0, i));
                assert(slot(reg0, position_code(model_at(reg0, i))) == i);
                lemma_position_code_bounds(model_at(reg0, i));
                assert(position_code(model_at(reg0, i)) != code);
                assert(reg1.index@[position_code(model_at(reg0, i))] == reg0.index@[position_code(
                    model_at(reg0, i),
                )]);
            } else {
                assert(model_at(reg1, i) == state@);
                assert(reg1.index@[code as int] == Some(r));
            }
        }
        assert forall|c: int| 0 <= c < NUM_CODES && #[trigger] slot(reg1, c) >= 0 implies slot(
            reg1,
            c,
        ) < reg1.nodes@.len() && position_code(model_at(reg1, slot(reg1, c))) == c by {
            if c != code {
                assert(slot(reg0, c) >= 0);
                assert(model_at(reg1, slot(reg1, c)) == model_at(reg0, slot(reg0, c)));
            }
        }
    }
    r
}

/// Links node `n` to its next child `c`, reached by action `a`.
fn link(reg: &mut Registry, n: usize, a: Action, c: usize)
    requires
        wf(*old(reg)),
        n < old(reg).nodes@.len(),
        c < old(reg).nodes@.len(),
        old(reg).nodes@[n as int].actions_from_here@.len() < legal_cells(
            model_at(*old(reg), n as int),
        ).len(),
        action_cell(a) == legal_cells(model_at(*old(reg), n as int))[old(reg).nodes@[n as int].actions_from_here@.len() as int],
        a.row < 3,
        a.col < 3,
        model_at(*old(reg), c as int) == next_model(
            model_at(*old(reg), n as int),
            action_cell(a),
        ),
    ensures
        wf(*final(reg)),
        grows(*old(reg), *final(reg)),
        final(reg).nodes@.len() == old(reg).nodes@.len(),
        final(reg).nodes@[n as int].actions_from_here@ == old(reg).nodes@[n as int].actions_from_here@.push((a, c)),
        forall|i: int|
            0 <= i < final(reg).nodes@.len() && i != n ==> (#[trigger] final(reg).nodes@[i]).actions_from_here@ == old(reg).nodes@[i].actions_from_here@,
        forall|i: int|
            0 <= i < final(reg).nodes@.len() ==> (#[trigger] final(reg).nodes@[i]).info == old(reg).nodes@[i].info,
{
    let ghost reg0 = *reg;
    let ghost m = model_at(reg0, n as int);
    proof {
        lemma_legal_cells(m);
        let k = action_cell(a);
        lemma_next_empty_count(m, k);
        assert(next_model(m, k).cells[k] != m.cells[k]);
        assert(c != n);
    }
    reg.nodes[n].actions_from_here.push((a, c));
    reg.nodes[c].actions_to_here.push(n);
    proof {
        let reg1 = *reg;
        reveal(wf);
        assert forall|k: int, p: int|
            0 <= k < reg0.nodes@.len() && #[trigger] has_parent(reg0, k, p) implies has_parent(
                reg1,
                k,
                p,
            ) by {
            if k == c {
                let q = choose|q: int|
                    0 <= q < reg0.nodes@[k].actions_to_here@.len()
                        && reg0.nodes@[k].actions_to_here@[q] as int == p;
                assert(reg1.nodes@[k].actions_to_here@[q] as int == p);
            } else {
                assert(reg1.nodes@[k].actions_to_here@ == reg0.nodes@[k].actions_to_here@);
            }
        }
        assert forall|i: int| 0 <= i < reg1.nodes@.len() implies #[trigger] node_wf(reg1, i) by {
            if i != n && i != c {
                lemma_node_wf_frame(reg0, reg1, i);
            } else {
                reveal(node_wf);
                assert(node_wf(reg0, i));
                assert(model_at(reg1, i) == model_at(reg0, i));
                let n1 = reg1.nodes@[i];
                let n0 = reg0.nodes@[i];
                assert forall|j: int| 0 <= j < n1.actions_from_here@.len() implies {
                    let (a1, c1) = #[trigger] n1.actions_from_here@[j];
                    &&& c1 < reg1.nodes@.len()
                    &&& model_at(reg1, c1 as int) == model_at(reg0, c1 as int)
                    &&& has_parent(reg1, c1 as int, i)
                } by {
                    let (a1, c1) = n1.actions_from_here@[j];
                    if i == n && j == n0.actions_from_here@.len() {
                        assert(c1 == c);
                        let q = reg0.nodes@[c as int].actions_to_here@.len() as int;
                        assert(reg1.nodes@[c as int].actions_to_here@[q] == n);
                    } else {
                        assert(n1.actions_from_here@[j] == n0.actions_from_here@[j]);
                        assert(has_parent(reg0, c1 as int, i));
                    }
                }
                assert forall|j: int| 0 <= j < n1.actions_to_here@.len() implies {
                    let p = #[trigger] n1.actions_to_here@[j];
                    &&& p < reg1.nodes@.len()
                    &&& empty_count(model_at(reg1, p as int)) == empty_count(model_at(reg1, i)) + 1
                } by {
                    let p = n1.actions_to_here@[j];
                    if i == c && j == n0.actions_to_here@.len() {
                        assert(p == n);
                    } else {
                        assert(n1.actions_to_here@[j] == n0.actions_to_here@[j]);
                        assert(model_at(reg1, p as int) == model_at(reg0, p as int));
                    }
                }
            }
        }
        assert forall|i: int|
            0 <= i < reg1.nodes@.len() implies slot(reg1, position_code(#[trigger] model_at(reg1, i)))
            == i by {
            assert(model_at(reg1, i) == model_at(reg0, i));
        }
        assert forall|q: int| 0 <= q < NUM_CODES && #[trigger] slot(reg1, q) >= 0 implies slot(
            reg1,
            q,
        ) < reg1.nodes@.len() && position_code(model_at(reg1, slot(reg1, q))) == q by {
            assert(slot(reg0, q) >= 0);
            assert(model_at(reg1, slot(reg1, q)) == model_at(reg0, slot(reg0, q)));
        }
    }
}

/// Expands node `n`, which has no children yet: links a child for every
/// legal action, registering and expanding each position seen for the first
/// time, then tries to label `n`.
pub fn build_next_states_recursively(reg: &mut Registry, n: usize)
    requires
        wf(*old(reg)),
        n < old(reg).nodes@.len(),
        old(reg).nodes@[n as int].actions_from_here@.len() == 0,
    ensures
        wf(*final(reg)),
        grows(*old(reg), *final(reg)),
        complete(*final(reg), n as int),
        forall|i: int|
            0 <= i < old(reg).nodes@.len() && i != n ==> (#[trigger] final(reg).nodes@[i]).actions_from_here@ == old(reg).nodes@[i].actions_from_here@,
        forall|i: int|
            0 <= i < final(reg).nodes@.len() && !#[trigger] complete(*final(reg), i) ==> i
                < old(reg).nodes@.len() && i != n && !complete(*old(reg), i),
        forall|i: int|
            0 <= i < final(reg).nodes@.len() && !#[trigger] settled(*final(reg), i) ==> i
                < old(reg).nodes@.len() && i != n && !settled(*old(reg), i),
        forall|i: int|
            old(reg).nodes@.len() <= i < final(reg).nodes@.len() ==> reachable(
                model_at(*old(reg), n as int),
                #[trigger] model_at(*final(reg), i),
            ),
    decreases empty_count(old(reg).nodes@[n as int].state@),
{
    let ghost reg0 = *reg;
    let ghost m = model_at(reg0, n as int);
    let actions = reg.nodes[n].state.possible_actions();
    proof {
        lemma_legal_cells(m);
        assert(reg.nodes@[n as int].state@ == m);
        assert(actions@.len() == legal_cells(m).len());
        assert forall|q: int| 0 <= q < actions@.len() implies #[trigger] action_cell(actions@[q])
            == legal_cells(m)[q] && actions@[q].row < 3 && actions@[q].col < 3 by {
            assert(action_cell(actions@[q]) == legal_cells(reg.nodes@[n as int].state@)[q]);
        }
    }
    let mut j: usize = 0;
    while j < actions.len()
        invariant
            reg0 == *old(reg),
            m == model_at(reg0, n as int),
            m.cells.len() == 9,
            wf(*reg),
            grows(reg0, *reg),
            n < reg0.nodes@.len(),
            n < reg.nodes@.len(),
            j <= actions@.len(),
            actions@.len() == legal_cells(m).len(),
            forall|q: int|
                0 <= q < actions@.len() ==> #[trigger] action_cell(actions@[q]) == legal_cells(m)[q]
                    && actions@[q].row < 3 && actions@[q].col < 3,
            reg.nodes@[n as int].actions_from_here@.len() == j,
            forall|i: int|
                0 <= i < reg0.nodes@.len() && i != n ==> (#[trigger] reg.nodes@[i]).actions_from_here@
                    == reg0.nodes@[i].actions_from_here@,
            forall|i: int|
                0 <= i < reg.nodes@.len() && !#[trigger] complete(*reg, i) ==> i
                    < reg0.nodes@.len() && (i == n || !complete(reg0, i)),
            forall|i: int|
                0 <= i < reg.nodes@.len() && !#[trigger] settled(*reg, i) ==> (i
                    < reg0.nodes@.len() && !settled(reg0, i)) || i == n,
            forall|i: int|
                reg0.nodes@.len() <= i < reg.nodes@.len() ==> reachable(
                    m,
                    #[trigger] model_at(*reg, i),
                ),
        decreases actions@.len() - j,
    {
        let a = actions[j];
        let ghost k = action_cell(a);
        proof {
            reveal(wf);
            assert(model_at(*reg, n as int) == m);
            assert(action_cell(actions@[j as int]) == legal_cells(m)[j as int]);
            lemma_legal_cells(m);
            assert(0 <= k < 9 && m.cells[k].is_none());
            lemma_next_empty_count(m, k);
        }
        let next_state = reg.nodes[n].state.next(a);
        let code = state_code(&next_state);
        match reg.index[code] {
            Some(c) => {
                proof {
                    reveal(wf);
                    assert(slot(*reg, code as int) == c as int);
                    lemma_position_code_injective(model_at(*reg, c as int), next_state@);
                }
                let ghost reg1 = *reg;
                link(reg, n, a, c);
                proof {
                    assert forall|i: int|
                        0 <= i < reg.nodes@.len() && i != n implies complete(*reg, i) == complete(
                            reg1,
                            i,
                        ) && settled(*reg, i) == settled(reg1, i) by {
                        assert forall|q: int|
                            0 <= q < reg1.nodes@[i].actions_from_here@.len() implies reg.nodes@[child_at(
                                reg1,
                                i,
                                q,
                            )].info == reg1.nodes@[child_at(reg1, i, q)].info by {
                            lemma_child(reg1, i, q);
                        }
                        lemma_settled_same(reg1, *reg, i);
                    }
                    assert forall|i: int|
                        0 <= i < reg.nodes@.len() && !#[trigger] complete(*reg, i) implies i
                            < reg0.nodes@.len() && (i == n || !complete(reg0, i)) by {
                        if i != n {
                            assert(!complete(reg1, i));
                        }
                    }
                    assert forall|i: int|
                        reg0.nodes@.len() <= i < reg.nodes@.len() implies reachable(
                            m,
                            #[trigger] model_at(*reg, i),
                        ) by {
                        assert(model_at(*reg, i) == model_at(reg1, i));
                    }
                    assert forall|i: int|
                        0 <= i < reg.nodes@.len() && !#[trigger] settled(*reg, i) implies (i
                            < reg0.nodes@.len() && !settled(reg0, i)) || i == n by {
                        if i != n {
                            assert(!settled(reg1, i));
                        }
                    }
                }
            },
            None => {
                let ghost reg1 = *reg;
                let c = add_node(reg, next_state);
                let ghost reg2 = *reg;
                proof {
                    assert(model_at(*reg, n as int) == m);
                }
                link(reg, n, a, c);
                let ghost reg3 = *reg;
                proof {
                    assert forall|i: int|
                        0 <= i < reg1.nodes@.len() && i != n implies complete(reg3, i) == complete(
                            reg1,
                            i,
                        ) && settled(reg3, i) == settled(reg1, i) by {
                        assert(reg2.nodes@[i] == reg1.nodes@[i]);
                        assert forall|q: int|
                            0 <= q < reg1.nodes@[i].actions_from_here@.len() implies reg3.nodes@[child_at(
                                reg1,
                                i,
                                q,
                            )].info == reg1.nodes@[child_at(reg1, i, q)].info by {
                            lemma_child(reg1, i, q);
                            let cq = child_at(reg1, i, q);
                            assert(reg2.nodes@[cq] == reg1.nodes@[cq]);
                        }
                        lemma_settled_same(reg1, reg3, i);
                    }
                }
                proof {
                    assert(model_at(reg3, c as int) == next_model(m, k));
                    assert(legal_cells(m)[j as int] == k);
                    assert(reachable_in(m, m, 0));
                    lemma_reach_step(m, m, k, 0);
                    assert forall|i: int|
                        reg0.nodes@.len() <= i < reg3.nodes@.len() implies reachable(
                            m,
                            #[trigger] model_at(reg3, i),
                        ) by {
                        if i < reg1.nodes@.len() {
                            assert(model_at(reg3, i) == model_at(reg1, i));
                        } else {
                            assert(reachable_in(m, model_at(reg3, i), 1));
                        }
                    }
                }
                build_next_states_recursively(reg, c);
                proof {
                    assert forall|i: int|
                        reg0.nodes@.len() <= i < reg.nodes@.len() implies reachable(
                            m,
                            #[trigger] model_at(*reg, i),
                        ) by {
                        if i < reg3.nodes@.len() {
                            assert(model_at(*reg, i) == model_at(reg3, i));
                        } else {
                            assert(reachable(model_at(reg3, c as int), model_at(*reg, i)));
                            let d2 = choose|d: nat| reachable_in(model_at(reg3, c as int), model_at(*reg, i), d);
                            lemma_reach_trans(m, model_at(reg3, c as int), model_at(*reg, i), 1, d2);
                        }
                    }
                }
                proof {
                    assert forall|i: int|
                        0 <= i < reg.nodes@.len() && !#[trigger] complete(*reg, i) implies i
                            < reg0.nodes@.len() && (i == n || !complete(reg0, i)) by {
                        assert(i < reg3.nodes@.len() && i != c && !complete(reg3, i));
                        if i != n {
                            assert(!complete(reg1, i));
                        }
                    }
                    assert forall|i: int|
                        0 <= i < reg.nodes@.len() && !#[trigger] settled(*reg, i) implies (i
                            < reg0.nodes@.len() && !settled(reg0, i)) || i == n by {
                        assert(i < reg3.nodes@.len() && i != c && !settled(reg3, i));
                        if i != n {
                            assert(!settled(reg1, i));
                        }
                    }
                }
            },
        }
        j = j + 1;
    }
    let ghost reg4 = *reg;
    assert(complete(reg4, n as int)) by {
        assert(model_at(reg4, n as int) == m);
    }
    build_info_recursively(reg, n);
    proof {
        assert forall|i: int|
            0 <= i < reg.nodes@.len() && !#[trigger] complete(*reg, i) implies i
                < reg0.nodes@.len() && i != n && !complete(reg0, i) by {
            assert(model_at(*reg, i) == model_at(reg4, i));
            assert(!complete(reg4, i));
        }
        assert forall|i: int|
            reg0.nodes@.len() <= i < reg.nodes@.len() implies reachable(
                m,
                #[trigger] model_at(*reg, i),
            ) by {
            assert(model_at(*reg, i) == model_at(reg4, i));
        }
    }
    proof {
        assert forall|i: int| 0 <= i < reg.nodes@.len() implies complete(*reg, i) == complete(
            reg4,
            i,
        ) by {
            assert(model_at(*reg, i) == model_at(reg4, i));
        }
    }
}

/// Once every node is expanded and none waits on propagation, every node
/// with at most `e` empty cells is labeled.
proof fn lemma_labeled_up_to(reg: Registry, e: int)
    requires
        wf(reg),
        forall|i: int| 0 <= i < reg.nodes@.len() ==> #[trigger] complete(reg, i),
        forall|i: int| 0 <= i < reg.nodes@.len() ==> #[trigger] settled(reg, i),
    ensures
        forall|i: int|
            0 <= i < reg.nodes@.len() && empty_count(#[trigger] model_at(reg, i)) <= e
                ==> reg.nodes@[i].info.is_some(),
    decreases e + 1,
{
    if e >= 0 {
        lemma_labeled_up_to(reg, e - 1);
        assert forall|i: int|
            0 <= i < reg.nodes@.len() && empty_count(#[trigger] model_at(reg, i)) <= e
                implies reg.nodes@[i].info.is_some() by {
            let m = model_at(reg, i);
            lemma_legal_cells(m);
            assert forall|q: int| 0 <= q < reg.nodes@[i].actions_from_here@.len() implies (
            #[trigger] reg.nodes@[child_at(reg, i, q)]).info.is_some() by {
                lemma_child(reg, i, q);
                lemma_next_empty_count(m, legal_cells(m)[q]);
            }
            assert(complete(reg, i) && settled(reg, i));
        }
    } else {
        assert forall|i: int|
            0 <= i < reg.nodes@.len() && empty_count(#[trigger] model_at(reg, i)) <= e
                implies reg.nodes@[i].info.is_some() by {
            lemma_empty_count_bounds(model_at(reg, i));
        }
    }
}

/// Builds the state graph of every position reachable from `start`, with
/// every node labeled.
pub fn explore(start: GameState) -> (reg: Registry)
    ensures
        wf(reg),
        reg.nodes@.len() >= 1,
        reg.nodes@[0].state == start,
        forall|i: int| 0 <= i < reg.nodes@.len() ==> #[trigger] complete(reg, i),
        forall|i: int|
            0 <= i < reg.nodes@.len() ==> (#[trigger] reg.nodes@[i]).info == Some(
                label_of(model_at(reg, i)),
            ),
        forall|i: int| 0 <= i < reg.nodes@.len() ==> reachable(start@, #[trigger] model_at(reg, i)),
        forall|m: PositionModel|
            reachable(start@, m) ==> exists|i: int|
                0 <= i < reg.nodes@.len() && #[trigger] model_at(reg, i) == m,
        forall|i: int, j: int|
            0 <= i < reg.nodes@.len() && 0 <= j < reg.nodes@.len() && i != j ==> #[trigger] model_at(
                reg,
                i,
            ) != #[trigger] model_at(reg, j),
{
    let mut index: Vec<Option<usize>> = Vec::new();
    while index.len() < NUM_CODES
        invariant
            index@.len() <= NUM_CODES,
            forall|c: int| 0 <= c < index@.len() ==> (#[trigger] index@[c]).is_none(),
        decreases NUM_CODES - index@.len(),
    {
        index.push(None);
    }
    let mut reg = Registry { nodes: Vec::new(), index };
    proof {
        reveal(wf);
        lemma_position_code_bounds(start@);
        assert(reg.index@[position_code(start@)].is_none());
    }
    let root = add_node(&mut reg, start);
    build_next_states_recursively(&mut reg, root);
    proof {
        assert(model_at(reg, 0) == start@);
        assert forall|i: int| 0 <= i < reg.nodes@.len() implies reachable(
            start@,
            #[trigger] model_at(reg, i),
        ) by {
            if i == 0 {
                assert(reachable_in(start@, model_at(reg, i), 0));
            }
        }
        assert forall|m: PositionModel| reachable(start@, m) implies exists|i: int|
            0 <= i < reg.nodes@.len() && #[trigger] model_at(reg, i) == m by {
            let d = choose|d: nat| reachable_in(start@, m, d);
            lemma_reachable_registered(reg, 0, m, d);
        }
        assert forall|i: int, j: int|
            0 <= i < reg.nodes@.len() && 0 <= j < reg.nodes@.len() && i != j implies #[trigger] model_at(
            reg,
            i,
        ) != #[trigger] model_at(reg, j) by {
            lemma_distinct_positions(reg, i, j);
        }
        lemma_labeled_up_to(reg, 9);
        assert forall|i: int| 0 <= i < reg.nodes@.len() implies (#[trigger] reg.nodes@[i]).info
            == Some(label_of(model_at(reg, i))) by {
            lemma_empty_count_bounds(model_at(reg, i));
            reveal(wf);
            reveal(node_wf);
            assert(node_wf(reg, i));
        }
    }
    reg
}

/// The node registered for a position, if any.
pub fn find(reg: &Registry, state: &GameState) -> (r: Option<usize>)
    requires
        wf(*reg),
    ensures
        match r {
            Some(i) => i < reg.nodes@.len() && model_at(*reg, i as int) == state@,
            None => forall|i: int| 0 <= i < reg.nodes@.len() ==> model_at(*reg, i) != state@,
        },
{
    let code = state_code(state);
    proof {
        reveal(wf);
        assert(slot(*reg, code as int) == match reg.index@[code as int] {
            Some(i) => i as int,
            None => -1,
        });
    }
    match reg.index[code] {
        Some(i) => {
            proof {
                assert(slot(*reg, code as int) == i);
                lemma_position_code_injective(model_at(*reg, i as int), state@);
            }
            Some(i)
        },
        None => {
            proof {
                assert forall|i: int| 0 <= i < reg.nodes@.len() implies model_at(*reg, i)
                    != state@ by {
                    assert(slot(*reg, position_code(model_at(*reg, i))) == i);
                }
            }
            None
        },
    }
}

/// The node indices in position order: cells in row-major order (empty,
/// then `You`, then `Opponent`), then the turn.
pub fn ordered_nodes(reg: &Registry) -> (r: Vec<usize>)
    requires
        wf(*reg),
    ensures
        forall|i: int| 0 <= i < reg.nodes@.len() ==> #[trigger] listed_from(r@, 0, i),
        forall|q: int| 0 <= q < r@.len() ==> #[trigger] r@[q] < reg.nodes@.len(),
        forall|q1: int, q2: int|
            0 <= q1 < q2 < r@.len() ==> position_code(model_at(*reg, r@[q1] as int))
                < position_code(model_at(*reg, r@[q2] as int)),
{
    let mut r: Vec<usize> = Vec::new();
    let mut c: usize = 0;
    proof {
        reveal(wf);
        assert forall|i: int| 0 <= i < reg.nodes@.len() implies (position_code(
            #[trigger] model_at(*reg, i),
        ) < c <==> listed_from(r@, 0, i)) by {
            lemma_position_code_bounds(model_at(*reg, i));
        }
    }
    while c < NUM_CODES
        invariant
            wf(*reg),
            reg.index@.len() == NUM_CODES,
            c <= NUM_CODES,
            forall|q: int|
                0 <= q < r@.len() ==> #[trigger] r@[q] < reg.nodes@.len() && position_code(
                    model_at(*reg, r@[q] as int),
                ) < c,
            forall|q1: int, q2: int|
                0 <= q1 < q2 < r@.len() ==> position_code(model_at(*reg, r@[q1] as int))
                    < position_code(model_at(*reg, r@[q2] as int)),
            forall|i: int|
                0 <= i < reg.nodes@.len() ==> (position_code(#[trigger] model_at(*reg, i)) < c
                    <==> listed_from(r@, 0, i)),
        decreases NUM_CODES - c,
    {
        proof {
            reveal(wf);
        }
        let ghost r_old = r@;
        if let Some(i) = reg.index[c] {
            proof {
                assert(slot(*reg, c as int) == i);
            }
            r.push(i);
        }
        proof {
            assert forall|i: int|
                0 <= i < reg.nodes@.len() implies (position_code(#[trigger] model_at(*reg, i)) < c + 1
                <==> listed_from(r@, 0, i)) by {
                assert(slot(*reg, position_code(model_at(*reg, i))) == i);
                if position_code(model_at(*reg, i)) == c {
                    assert(r@[r@.len() - 1] as int == i);
                } else if position_code(model_at(*reg, i)) < c {
                    assert(listed_from(r_old, 0, i));
                    let q = choose|q: int| 0 <= q < r_old.len() && r_old[q] as int == i;
                    assert(r@[q] == r_old[q]);
                }
                if listed_from(r@, 0, i) {
                    let q = choose|q: int| 0 <= q < r@.len() && r@[q] as int == i;
                    assert(r@[q] < reg.nodes@.len());
                }
            }
        }
        c = c + 1;
    }
    proof {
        assert forall|i: int| 0 <= i < reg.nodes@.len() implies #[trigger] listed_from(r@, 0, i) by {
            lemma_position_code_bounds(model_at(*reg, i));
        }
    }
    r
}

/// A terminal position's label comes from its progress alone: a line
/// completed by `You` gives `W`, one completed by `Opponent` gives `L`, a
/// full board without a line gives `D`.
pub proof fn lemma_terminal_label(m: PositionModel)
    requires
        progress_of(m) != Progress::Ongoing,
    ensures
        label_of(m) == match progress_of(m) {
            Progress::Win(Player::You) => GameStateInfo::W,
            Progress::Win(Player::Opponent) => GameStateInfo::L,
            _ => GameStateInfo::D,
        },
{
}

/// A label depends on the position alone, not on the registry or the order
/// in which nodes were linked: two well-formed registries that both label a
/// position give it the same label.
pub proof fn lemma_label_is_positional(r1: Registry, r2: Registry, i: int, j: int)
    requires
        wf(r1),
        wf(r2),
        0 <= i < r1.nodes@.len(),
        0 <= j < r2.nodes@.len(),
        model_at(r1, i) == model_at(r2, j),
        r1.nodes@[i].info.is_some(),
        r2.nodes@[j].info.is_some(),
    ensures
        r1.nodes@[i].info == r2.nodes@[j].info,
        r1.nodes@[i].info == Some(label_of(model_at(r1, i))),
{
    reveal(wf);
    reveal(node_wf);
    assert(node_wf(r1, i));
    assert(node_wf(r2, j));
}

/// No two nodes of a well-formed registry hold the same position.
pub proof fn lemma_distinct_positions(reg: Registry, i: int, j: int)
    requires
        wf(reg),
        0 <= i < reg.nodes@.len(),
        0 <= j < reg.nodes@.len(),
        i != j,
    ensures
        model_at(reg, i) != model_at(reg, j),
{
    reveal(wf);
    assert(slot(reg, position_code(model_at(reg, i))) == i);
    assert(slot(reg, position_code(model_at(reg, j))) == j);
}

/// In a registry whose nodes are all expanded, every position one legal
/// action away from a registered position is registered too.
pub proof fn lemma_successors_registered(reg: Registry, i: int, q: int)
    requires
        wf(reg),
        0 <= i < reg.nodes@.len(),
        complete(reg, i),
        0 <= q < legal_cells(model_at(reg, i)).len(),
    ensures
        exists|c: int|
            0 <= c < reg.nodes@.len() && #[trigger] model_at(reg, c) == next_model(
                model_at(reg, i),
                legal_cells(model_at(reg, i))[q],
            ),
{
    lemma_child(reg, i, q);
    let c = child_at(reg, i, q);
    assert(model_at(reg, c) == next_model(model_at(reg, i), legal_cells(model_at(reg, i))[q]));
}

} // verus!
