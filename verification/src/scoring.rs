//! Feeding the predictor scoreboard as a forward runs: settle the layer that has
//! just routed, then predict the next one with every arm.

use vstd::prelude::*;

use crate::knobs;
use crate::predeval;
use crate::predeval::PredictEval;

verus! {

/// The arms of the scoreboard, in the order candidates are stashed.
pub fn predict_eval_arms() -> (names: Vec<&'static str>)
    ensures
        names@.len() == 5,
        names@[0]@ == "router-lookahead"@,
        names@[1]@ == "router-lookahead-2"@,
        names@[2]@ == "predictor"@,
        names@[3]@ == "prev-token"@,
        names@[4]@ == "control/noise"@,
{
    let mut names: Vec<&'static str> = Vec::new();
    names.push("router-lookahead");
    names.push("router-lookahead-2");
    names.push("predictor");
    names.push("prev-token");
    names.push("control/noise");
    names
}

/// The scoreboard, where the setting asks for one, with an arm for each of the
/// five predictors and nothing scored: as many candidates per arm as
/// a row routes to, unless the other setting spells another number.
pub fn predict_eval_init(value: Option<&str>, width: Option<&str>, topk: usize) -> (ev: Option<PredictEval>)
    ensures
        ev is Some <==> knobs::says_on(knobs::setting(value)),
        ev is Some ==> {
            let e = ev->0;
            let asked = knobs::number_or(knobs::setting(width), topk as int);
            &&& e.wf()
            &&& e.board().len() == 5
            &&& e.count() == 0
            &&& e.waiting() == Set::<usize>::empty()
            &&& e.scored_width() == if asked < 1 {
                1
            } else {
                asked
            }
            &&& e.board()[0].called() == "router-lookahead"@
            &&& e.board()[1].called() == "router-lookahead-2"@
            &&& e.board()[2].called() == "predictor"@
            &&& e.board()[3].called() == "prev-token"@
            &&& e.board()[4].called() == "control/noise"@
            &&& predeval::is_control(e.board()[4])
            &&& forall|a: int|
                0 <= a < 5 ==> (#[trigger] e.board()[a]).tally() == predeval::blank_tally(
                    e.scored_width() as nat,
                )
        },
{
    if !knobs::opted_in(value) {
        return None;
    }
    let names = predict_eval_arms();
    let ev = PredictEval::new(knobs::predict_eval_width(width, topk), names.as_slice());
    assert(ev.board()[4].called() == names@[4]@);
    Some(ev)
}

/// What is known when layer `li` has routed and layer `li + 1` has not.
pub struct Seen {
    /// What layer `li` routed; empty before it ever did.
    pub actual: Vec<i32>,
    /// What layer `li + 1` routed for the token before.
    pub prev: Vec<i32>,
    /// What the predictor ranks for layer `li + 1`, with scores.
    pub predicted: Vec<(u32, u32)>,
    /// What layer `li + 1`'s router ranks on layer `li`'s output.
    pub ahead: Vec<i32>,
    /// What layer `li + 2`'s router ranks on layer `li`'s output.
    pub two_ahead: Vec<i32>,
}

/// Layer `l` exists and routes.
pub open spec fn routes(sparse: Seq<bool>, first_dense: int, l: int) -> bool {
    0 <= l < sparse.len() && sparse[l] && l >= first_dense
}

/// The first `width` predicted experts, without their scores. Ids past the
/// signed range keep their bits.
pub open spec fn predictor_arm(predicted: Seq<(u32, u32)>, width: int) -> Seq<i32> {
    Seq::new(
        (if width < predicted.len() {
            width
        } else {
            predicted.len() as int
        }) as nat,
        |i: int| predicted[i].0 as i32,
    )
}

/// What every arm offers for layer `next`, in the arms' order.
pub open spec fn arm_offers(
    seen: Seen,
    two_back: Seq<i32>,
    width: usize,
    n_experts: usize,
    next: usize,
    token: u64,
) -> Seq<Seq<i32>> {
    seq![
        seen.ahead@,
        two_back,
        predictor_arm(seen.predicted@, width as int),
        seen.prev@,
        predeval::control_of(width, n_experts, next, token),
    ]
}

/// The rankings carried to later layers once layer `li` is settled: the next
/// layer's is used up, the one after that is set.
pub open spec fn carried(
    deep: Seq<Vec<i32>>,
    seen: Seen,
    sparse: Seq<bool>,
    first_dense: int,
    li: int,
    l: int,
) -> Seq<i32> {
    if l == li + 1 && routes(sparse, first_dense, l) {
        seq![]
    } else if l == li + 2 && routes(sparse, first_dense, l) {
        seen.two_ahead@
    } else {
        deep[l]@
    }
}

fn routed_layer(sparse: &Vec<bool>, first_dense: usize, l: usize) -> (b: bool)
    ensures
        b == routes(sparse@, first_dense as int, l as int),
{
    l < sparse.len() && sparse[l] && l >= first_dense
}

fn predicted_ids(predicted: &Vec<(u32, u32)>, width: usize) -> (out: Vec<i32>)
    ensures
        out@ == predictor_arm(predicted@, width as int),
{
    let n: usize = if width < predicted.len() {
        width
    } else {
        predicted.len()
    };
    let mut out: Vec<i32> = Vec::new();
    let mut i: usize = 0;
    while i < n
        invariant
            i <= n <= predicted@.len(),
            out@.len() == i,
            forall|j: int| 0 <= j < i ==> #[trigger] out@[j] == predicted@[j].0 as i32,
        decreases n - i,
    {
        out.push(#[verifier::truncate] (predicted[i].0 as i32));
        i = i + 1;
    }
    assert(out@ =~= predictor_arm(predicted@, width as int));
    out
}

/// Settles what was predicted for layer `li` against what it routed, then
/// predicts layer `li + 1` with every arm. In this order: what layer `li + 1`
/// routed for the token before is still there to be one of the arms.
pub fn score_and_stash(
    ev: &mut PredictEval,
    li: usize,
    sparse: &Vec<bool>,
    first_dense: usize,
    n_experts: usize,
    seen: Seen,
    deep: &mut Vec<Vec<i32>>,
)
    requires
        old(ev).wf(),
        predeval::score_fits(*old(ev), li, seen.actual@),
        old(ev).scored_width() * 16 + 64 <= usize::MAX,
        li + 2 <= usize::MAX,
        old(deep)@.len() == sparse@.len(),
    ensures
        final(ev).wf(),
        final(ev).scored_width() == old(ev).scored_width(),
        !old(ev).waiting().contains(li) || seen.actual@.len() == 0 ==> final(ev).board()
            == old(ev).board() && final(ev).count() == old(ev).count(),
        old(ev).waiting().contains(li) && seen.actual@.len() > 0 ==> final(ev).count()
            == old(ev).count() + 1 && old(ev).scored_arms(li, seen.actual@, final(ev).board()),
        final(ev).waiting() == if routes(sparse@, first_dense as int, li + 1)
            && old(ev).board().len() == 5 {
            old(ev).waiting().remove(li).insert((li + 1) as usize)
        } else {
            old(ev).waiting().remove(li)
        },
        routes(sparse@, first_dense as int, li + 1) && old(ev).board().len() == 5 ==> final(ev).offers((li + 1) as usize) == arm_offers(
            seen,
            old(deep)@[li + 1]@,
            old(ev).scored_width(),
            n_experts,
            (li + 1) as usize,
            final(ev).count(),
        ),
        forall|l: usize|
            l != li + 1 && final(ev).waiting().contains(l) ==> #[trigger] final(ev).offers(l)
                == old(ev).offers(l),
        final(deep)@.len() == old(deep)@.len(),
        forall|l: int|
            0 <= l < old(deep)@.len() ==> (#[trigger] final(deep)@[l])@ == carried(
                old(deep)@,
                seen,
                sparse@,
                first_dense as int,
                li as int,
                l,
            ),
{
    let ghost s0 = seen;
    let ghost d0 = deep@;
    let width: usize = ev.width();
    let next: usize = li + 1;
    let two: usize = li + 2;
    let predict = routed_layer(sparse, first_dense, next);
    let mut two_back: Vec<i32> = Vec::new();
    if predict {
        let mut taken: Vec<i32> = Vec::new();
        std::mem::swap(&mut taken, &mut deep[next]);
        two_back = taken;
    }
    if routed_layer(sparse, first_dense, two) {
        deep.set(two, seen.two_ahead);
    }
    ev.score(li, seen.actual.as_slice());
    let ghost mid = *ev;
    let token: u64 = ev.scored();
    if predict {
        let control = predeval::control_candidates(width, n_experts, next, token);
        let statistical = predicted_ids(&seen.predicted, width);
        let mut per_arm: Vec<Vec<i32>> = Vec::new();
        per_arm.push(seen.ahead);
        per_arm.push(two_back);
        per_arm.push(statistical);
        per_arm.push(seen.prev);
        per_arm.push(control);
        proof {
            assert(predeval::lists(per_arm@) =~= arm_offers(
                s0,
                d0[li + 1]@,
                width,
                n_experts,
                next,
                token,
            ));
        }
        ev.stash(next, per_arm);
    }
}

/// A layer routes where it is sparse and not one of the leading dense layers.
pub proof fn lemma_which_layers_route(sparse: Seq<bool>, first_dense: int, l: int)
    requires
        0 <= l < sparse.len(),
    ensures
        l < first_dense ==> !routes(sparse, first_dense, l),
        l >= first_dense ==> routes(sparse, first_dense, l) == sparse[l],
        !routes(sparse, first_dense, sparse.len() as int),
{
}

/// Every predictor's candidates go to the arm that bears its name: the router's
/// look-ahead, the one from two layers back, the predictor's best, what the token
/// before routed to, and the control. The predictor's arm holds its leading
/// experts, no more than are scored.
pub proof fn lemma_arms_get_their_own_offers(
    board: Seq<predeval::Arm>,
    seen: Seen,
    two_back: Seq<i32>,
    width: usize,
    n_experts: usize,
    next: usize,
    token: u64,
    a: int,
)
    requires
        board.len() == 5,
        board[0].called() == "router-lookahead"@,
        board[1].called() == "router-lookahead-2"@,
        board[2].called() == "predictor"@,
        board[3].called() == "prev-token"@,
        board[4].called() == "control/noise"@,
        0 <= a < 5,
    ensures
        ({
            let offer = arm_offers(seen, two_back, width, n_experts, next, token)[a];
            let name = board[a].called();
            let n = seen.predicted@.len();
            &&& arm_offers(seen, two_back, width, n_experts, next, token).len() == board.len()
            &&& name == "router-lookahead"@ ==> offer == seen.ahead@
            &&& name == "router-lookahead-2"@ ==> offer == two_back
            &&& name == "prev-token"@ ==> offer == seen.prev@
            &&& predeval::is_control(board[a]) ==> offer == predeval::control_of(
                width,
                n_experts,
                next,
                token,
            )
            &&& name == "predictor"@ ==> {
                &&& offer.len() <= width
                &&& offer.len() <= n
                &&& offer.len() == width || offer.len() == n
                &&& forall|i: int|
                    0 <= i < offer.len() ==> #[trigger] offer[i] == seen.predicted@[i].0 as i32
            }
        }),
{
    reveal_strlit("router-lookahead");
    reveal_strlit("router-lookahead-2");
    reveal_strlit("predictor");
    reveal_strlit("prev-token");
    reveal_strlit("control/noise");
    assert("router-lookahead"@.len() == 16);
    assert("router-lookahead-2"@.len() == 18);
    assert("predictor"@.len() == 9);
    assert("prev-token"@.len() == 10);
    assert("control/noise"@.len() == 13);
}

/// A look-ahead over two layers waits one layer and is then used up: what is
/// noted for the layer after next is there when the next layer is reached, and is
/// gone once that one has been scored. No other layer's notes change.
pub proof fn lemma_two_ahead_waits_one_layer(
    deep: Seq<Vec<i32>>,
    seen: Seen,
    sparse: Seq<bool>,
    first_dense: int,
    li: int,
    l: int,
)
    requires
        0 <= li,
        0 <= l < sparse.len(),
        sparse.len() == deep.len(),
    ensures
        l == li + 1 && l >= first_dense && sparse[l] ==> carried(
            deep,
            seen,
            sparse,
            first_dense,
            li,
            l,
        ).len() == 0,
        l == li + 2 && l >= first_dense && sparse[l] ==> carried(
            deep,
            seen,
            sparse,
            first_dense,
            li,
            l,
        ) == seen.two_ahead@,
        l <= li || l > li + 2 || l < first_dense || !sparse[l] ==> carried(
            deep,
            seen,
            sparse,
            first_dense,
            li,
            l,
        ) == deep[l]@,
{
}

} // verus!
