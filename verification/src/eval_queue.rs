//! Evaluation requests in batches: what goes to the network, and whom its answers are for.

use crate::nn::{ACTION_SPACE, TENSOR_SIZE};
use vstd::prelude::*;

verus! {

/// What a request asks: the tensor of a position, and whether a policy is wanted besides
/// the value.
pub struct EvalRequest {
    pub tensor_data: [u8; 1260],
    pub need_policy: bool,
}

/// An answer: the bits of the value and, if wanted, of the policy.
pub struct EvalResponse {
    pub value: u32,
    pub policy: Option<Vec<u32>>,
}

/// The requests collected for one run of the network.
pub struct EvalBatch {
    /// The tensors, one behind the other.
    pub inputs: Vec<u8>,
    /// Which requests want a policy.
    pub needs: Vec<bool>,
}

/// The tensors of requests, one behind the other.
pub open spec fn inputs_of(requests: Seq<EvalRequest>) -> Seq<u8>
    decreases requests.len(),
{
    if requests.len() == 0 {
        Seq::empty()
    } else {
        inputs_of(requests.drop_last()) + requests.last().tensor_data@
    }
}

/// Which of the requests want a policy.
pub open spec fn needs_of(requests: Seq<EvalRequest>) -> Seq<bool> {
    Seq::new(requests.len(), |i: int| requests[i].need_policy)
}

/// The answer to the request `i` of a batch: its value, and its part of the policies.
pub open spec fn answer_of(needs: Seq<bool>, values: Seq<u32>, policies: Seq<u32>, i: int) -> (
    u32,
    Option<Seq<u32>>,
) {
    (
        values[i],
        if needs[i] {
            Some(policies.subrange(i * 8100, i * 8100 + 8100))
        } else {
            None
        },
    )
}

impl EvalBatch {
    pub open spec fn wf(&self) -> bool {
        self.inputs@.len() == self.needs@.len() * 1260
    }

    /// These are the requests that were taken in.
    pub open spec fn holds(&self, requests: Seq<EvalRequest>) -> bool {
        self.inputs@ == inputs_of(requests) && self.needs@ == needs_of(requests)
    }

    pub fn new() -> (batch: EvalBatch)
        ensures
            batch.wf(),
            batch.holds(Seq::empty()),
            batch.inputs@.len() == 0,
            batch.needs@.len() == 0,
    {
        let batch = EvalBatch { inputs: Vec::new(), needs: Vec::new() };
        assert(batch.needs@ =~= needs_of(Seq::empty()));
        batch
    }

    /// Throws the requests away.
    pub fn clear(&mut self)
        ensures
            final(self).wf(),
            final(self).holds(Seq::empty()),
            final(self).inputs@.len() == 0,
            final(self).needs@.len() == 0,
    {
        self.inputs.clear();
        self.needs.clear();
        assert(self.inputs@ =~= inputs_of(Seq::empty()));
        assert(self.needs@ =~= needs_of(Seq::empty()));
    }

    /// Takes a request in.
    pub fn push(&mut self, request: &EvalRequest)
        requires
            old(self).wf(),
        ensures
            final(self).wf(),
            final(self).inputs@ == old(self).inputs@ + request.tensor_data@,
            final(self).needs@ == old(self).needs@.push(request.need_policy),
            forall|requests: Seq<EvalRequest>| #[trigger]
                old(self).holds(requests) ==> final(self).holds(requests.push(*request)),
    {
        let mut k: usize = 0;
        assert(old(self).inputs@ + request.tensor_data@.take(0) =~= old(self).inputs@);
        while k < TENSOR_SIZE
            invariant
                k <= 1260,
                self.inputs@ == old(self).inputs@ + request.tensor_data@.take(k as int),
                self.needs == old(self).needs,
            decreases 1260 - k,
        {
            self.inputs.push(request.tensor_data[k]);
            k += 1;
            assert(self.inputs@ =~= old(self).inputs@ + request.tensor_data@.take(k as int));
        }
        assert(request.tensor_data@.take(1260) =~= request.tensor_data@);
        self.needs.push(request.need_policy);
        proof {
            assert forall|requests: Seq<EvalRequest>| #[trigger]
                old(self).holds(requests) implies self.holds(requests.push(*request)) by {
                assert(requests.push(*request).drop_last() =~= requests);
                assert(self.needs@ =~= needs_of(requests.push(*request)));
            }
        }
    }

    /// More requests are waited for: the batch has room and the time is not up.
    pub fn wants_more(&self, batch_size: usize, time_is_up: bool) -> (more: bool)
        ensures
            more == (self.needs@.len() < batch_size && !time_is_up),
    {
        self.needs.len() < batch_size && !time_is_up
    }

    /// At least one request wants a policy.
    pub open spec fn needs_policy(&self) -> bool {
        exists|i: int| 0 <= i < self.needs@.len() && #[trigger] self.needs@[i]
    }

    pub fn any_needs_policy(&self) -> (any: bool)
        ensures
            any == self.needs_policy(),
    {
        let mut i: usize = 0;
        while i < self.needs.len()
            invariant
                i <= self.needs@.len(),
                forall|j: int| 0 <= j < i ==> !#[trigger] self.needs@[j],
            decreases self.needs@.len() - i,
        {
            if self.needs[i] {
                return true;
            }
            i += 1;
        }
        false
    }

    /// The answer to the request `i`.
    pub open spec fn answer(&self, values: Seq<u32>, policies: Seq<u32>, i: int) -> (
        u32,
        Option<Seq<u32>>,
    ) {
        answer_of(self.needs@, values, policies, i)
    }

    /// Deals the network's answers out to the requests, in their order. The policies are
    /// only looked at where one is wanted.
    pub fn dispatch(&self, values: &Vec<u32>, policies: &Vec<u32>) -> (answers: Vec<EvalResponse>)
        requires
            values@.len() >= self.needs@.len(),
            forall|i: int|
                0 <= i < self.needs@.len() && #[trigger] self.needs@[i] ==> policies@.len() >= i
                    * 8100 + 8100,
        ensures
            answers@.len() == self.needs@.len(),
            forall|i: int|
                0 <= i < answers@.len() ==> {
                    let (value, policy) = self.answer(values@, policies@, i);
                    &&& (#[trigger] answers@[i]).value == value
                    &&& match answers@[i].policy {
                        Some(p) => policy == Some(p@),
                        None => policy is None,
                    }
                },
    {
        let mut answers: Vec<EvalResponse> = Vec::with_capacity(self.needs.len());
        let mut i: usize = 0;
        while i < self.needs.len()
            invariant
                i <= self.needs@.len(),
                answers@.len() == i,
                values@.len() >= self.needs@.len(),
                forall|j: int|
                    0 <= j < self.needs@.len() && #[trigger] self.needs@[j] ==> policies@.len()
                        >= j * 8100 + 8100,
                forall|j: int|
                    0 <= j < answers@.len() ==> {
                        let (value, policy) = self.answer(values@, policies@, j);
                        &&& (#[trigger] answers@[j]).value == value
                        &&& match answers@[j].policy {
                            Some(p) => policy == Some(p@),
                            None => policy is None,
                        }
                    },
            decreases self.needs@.len() - i,
        {
            let policy = if self.needs[i] {
                assert(policies.len() == policies@.len());
                let start = i * ACTION_SPACE;
                let mut part: Vec<u32> = Vec::with_capacity(ACTION_SPACE);
                let mut k: usize = 0;
                while k < ACTION_SPACE
                    invariant
                        k <= 8100,
                        start == i * 8100,
                        policies@.len() >= start + 8100,
                        part@ == policies@.subrange(start as int, start + k),
                    decreases 8100 - k,
                {
                    assert(policies.len() == policies@.len());
                    part.push(policies[start + k]);
                    k += 1;
                    assert(part@ =~= policies@.subrange(start as int, start + k));
                }
                Some(part)
            } else {
                None
            };
            answers.push(EvalResponse { value: values[i], policy });
            i += 1;
        }
        answers
    }
}

// ---------------------------------------------------------------------------
// Runs of the queue
// ---------------------------------------------------------------------------
/// The tensor number `i` among the inputs.
pub open spec fn input_part(inputs: Seq<u8>, i: int) -> Seq<u8> {
    inputs.subrange(i * 1260, i * 1260 + 1260)
}

/// The values that a network gives for `n` inputs, if it looks at each by itself.
pub open spec fn values_of(value: spec_fn(Seq<u8>) -> u32, inputs: Seq<u8>, n: nat) -> Seq<u32> {
    Seq::new(n, |i: int| value(input_part(inputs, i)))
}

/// The policies that a network gives for `n` inputs, one behind the other, if it looks at
/// each by itself.
pub open spec fn policies_of(policy: spec_fn(Seq<u8>) -> Seq<u32>, inputs: Seq<u8>, n: nat) -> Seq<
    u32,
> {
    Seq::new(n * 8100, |k: int| policy(input_part(inputs, k / 8100))[k % 8100])
}

/// The answer that a request is owed.
pub open spec fn own_answer(
    value: spec_fn(Seq<u8>) -> u32,
    policy: spec_fn(Seq<u8>) -> Seq<u32>,
    request: EvalRequest,
) -> (u32, Option<Seq<u32>>) {
    (
        value(request.tensor_data@),
        if request.need_policy {
            Some(policy(request.tensor_data@))
        } else {
            None
        },
    )
}

/// A batch as the queue fills it: a first request in any case, and each further one only
/// while the batch wanted more.
pub open spec fn is_filled(requests: Seq<EvalRequest>, batch_size: int) -> bool {
    &&& requests.len() >= 1
    &&& forall|taken: int| 1 <= taken < requests.len() ==> #[trigger] has_room(taken, batch_size)
}

pub open spec fn has_room(taken: int, batch_size: int) -> bool {
    taken < batch_size
}

/// The requests fall into batches at these cuts, in their order.
pub open spec fn is_run(requests: Seq<EvalRequest>, cuts: Seq<int>, batch_size: int) -> bool {
    &&& cuts.len() >= 1
    &&& cuts[0] == 0
    &&& cuts.last() == requests.len()
    &&& forall|j: int, k: int| 0 <= j < k < cuts.len() ==> #[trigger] cuts[j] < #[trigger] cuts[k]
    &&& forall|j: int|
        0 <= j < cuts.len() - 1 ==> is_filled(#[trigger] batch_of(requests, cuts, j), batch_size)
}

/// The requests of the batch `j`.
pub open spec fn batch_of(requests: Seq<EvalRequest>, cuts: Seq<int>, j: int) -> Seq<EvalRequest> {
    requests.subrange(cuts[j], cuts[j + 1])
}

/// The request `i` falls into the batch `j`.
pub open spec fn serves(cuts: Seq<int>, j: int, i: int) -> bool {
    0 <= j < cuts.len() - 1 && cuts[j] <= i < cuts[j + 1]
}

proof fn lemma_inputs_len(requests: Seq<EvalRequest>)
    ensures
        inputs_of(requests).len() == requests.len() * 1260,
    decreases requests.len(),
{
    if requests.len() > 0 {
        lemma_inputs_len(requests.drop_last());
    }
}

/// Each tensor stands in its place among the inputs.
proof fn lemma_input_part(requests: Seq<EvalRequest>, i: int)
    requires
        0 <= i < requests.len(),
    ensures
        input_part(inputs_of(requests), i) == requests[i].tensor_data@,
    decreases requests.len(),
{
    let rest = requests.drop_last();
    lemma_inputs_len(rest);
    lemma_inputs_len(requests);
    if i < rest.len() {
        lemma_input_part(rest, i);
        assert(input_part(inputs_of(requests), i) =~= input_part(inputs_of(rest), i));
    } else {
        assert(input_part(inputs_of(requests), i) =~= requests[i].tensor_data@);
    }
}

/// Whatever else is in its batch, a request is dealt the answer to its own tensor. Without
/// a request for one, the policies do not matter.
pub proof fn law_a_batch_gives_each_request_its_own_answer(
    requests: Seq<EvalRequest>,
    value: spec_fn(Seq<u8>) -> u32,
    policy: spec_fn(Seq<u8>) -> Seq<u32>,
    policies: Seq<u32>,
    i: int,
)
    requires
        0 <= i < requests.len(),
        forall|x: Seq<u8>| (#[trigger] policy(x)).len() == 8100,
        requests[i].need_policy ==> policies == policies_of(
            policy,
            inputs_of(requests),
            requests.len(),
        ),
    ensures
        answer_of(
            needs_of(requests),
            values_of(value, inputs_of(requests), requests.len()),
            policies,
            i,
        ) == own_answer(value, policy, requests[i]),
{
    lemma_input_part(requests, i);
    if requests[i].need_policy {
        let own = policy(requests[i].tensor_data@);
        let part = policies.subrange(i * 8100, i * 8100 + 8100);
        assert forall|k: int| 0 <= k < 8100 implies #[trigger] part[k] == own[k] by {
            let at = i * 8100 + k;
            assert(at / 8100 == i && at % 8100 == k);
            assert(part[k] == policies[at]);
        }
        assert(part =~= own);
    }
}

/// However the requests fall into batches, each falls into exactly one and is dealt the
/// answer to its own tensor, and no batch is larger than it may be.
pub proof fn law_every_request_gets_its_own_answer(
    requests: Seq<EvalRequest>,
    cuts: Seq<int>,
    batch_size: int,
    value: spec_fn(Seq<u8>) -> u32,
    policy: spec_fn(Seq<u8>) -> Seq<u32>,
    i: int,
)
    requires
        is_run(requests, cuts, batch_size),
        0 <= i < requests.len(),
        forall|x: Seq<u8>| (#[trigger] policy(x)).len() == 8100,
    ensures
        exists|j: int| serves(cuts, j, i),
        forall|j: int, k: int| serves(cuts, j, i) && serves(cuts, k, i) ==> j == k,
        forall|j: int| #[trigger]
            serves(cuts, j, i) ==> {
                let batch = batch_of(requests, cuts, j);
                &&& batch.len() <= (if batch_size > 1 {
                    batch_size
                } else {
                    1
                })
                &&& answer_of(
                    needs_of(batch),
                    values_of(value, inputs_of(batch), batch.len()),
                    policies_of(policy, inputs_of(batch), batch.len()),
                    i - cuts[j],
                ) == own_answer(value, policy, requests[i])
            },
{
    lemma_some_batch_serves(cuts, i, cuts.len() - 1);
    assert forall|j: int| #[trigger] serves(cuts, j, i) implies {
        let batch = batch_of(requests, cuts, j);
        &&& batch.len() <= (if batch_size > 1 {
            batch_size
        } else {
            1
        })
        &&& answer_of(
            needs_of(batch),
            values_of(value, inputs_of(batch), batch.len()),
            policies_of(policy, inputs_of(batch), batch.len()),
            i - cuts[j],
        ) == own_answer(value, policy, requests[i])
    } by {
        let batch = batch_of(requests, cuts, j);
        assert(is_filled(batch, batch_size));
        if j + 1 < cuts.len() - 1 {
            assert(cuts[j + 1] < cuts[cuts.len() - 1]);
        }
        if j > 0 {
            assert(cuts[0] < cuts[j]);
        }
        if batch.len() > 1 {
            assert(has_room(batch.len() - 1, batch_size));
        }
        assert(batch[i - cuts[j]] == requests[i]);
        law_a_batch_gives_each_request_its_own_answer(
            batch,
            value,
            policy,
            policies_of(policy, inputs_of(batch), batch.len()),
            i - cuts[j],
        );
    }
    assert forall|j: int, k: int| serves(cuts, j, i) && serves(cuts, k, i) implies j == k by {
        if j < k {
            assert(j + 1 == k || cuts[j + 1] < cuts[k]);
        } else if k < j {
            assert(k + 1 == j || cuts[k + 1] < cuts[j]);
        }
    }
}

/// A request before the cut `n` falls into a batch.
proof fn lemma_some_batch_serves(cuts: Seq<int>, i: int, n: int)
    requires
        0 <= n < cuts.len(),
        cuts[0] <= i < cuts[n],
    ensures
        exists|j: int| serves(cuts, j, i),
    decreases n,
{
    if i < cuts[n - 1] {
        lemma_some_batch_serves(cuts, i, n - 1);
    } else {
        assert(serves(cuts, n - 1, i));
    }
}

} // verus!
