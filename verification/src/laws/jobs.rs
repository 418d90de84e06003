//! Laws of background jobs.
use vstd::prelude::*;

use crate::laws::identifiers;
use crate::zk::{JobCall, JobView};
use crate::{text, zk};

verus! {

/// The table of jobs after some calls on an empty one.
pub open spec fn table(calls: Seq<JobCall>) -> Map<Seq<char>, JobView>
    decreases calls.len(),
{
    if calls.len() == 0 {
        Map::empty()
    } else {
        calls.last().applied(table(calls.drop_last()))
    }
}

/// The job was created by one of the calls.
pub open spec fn created(calls: Seq<JobCall>, id: Seq<char>) -> bool {
    exists|i: int| 0 <= i < calls.len() && (#[trigger] calls[i]) is Create && calls[i].id() == id
}

/// None of the calls is about the job.
pub open spec fn untouched(calls: Seq<JobCall>, id: Seq<char>) -> bool {
    forall|i: int| 0 <= i < calls.len() ==> (#[trigger] calls[i]).id() != id
}

/// The call at `i` creates the job that the call at `j` completes, under the
/// same claim, and no call between them is about that job.
pub open spec fn finishes(calls: Seq<JobCall>, i: int, j: int) -> bool {
    &&& 0 <= i < j < calls.len()
    &&& calls[i].id() == calls[j].id()
    &&& calls[i] matches JobCall::Create { claim: asked, .. } && calls[j]
        matches JobCall::Complete { claim: told, .. } && asked == told
    &&& untouched(calls.subrange(i + 1, j), calls[j].id())
}

/// Jobs are completed only after they were created.
pub open spec fn creation_comes_first(calls: Seq<JobCall>) -> bool {
    forall|j: int|
        0 <= j < calls.len() && (#[trigger] calls[j]) is Complete ==> created(
            calls.take(j),
            calls[j].id(),
        )
}

/// Every completion finishes a creation, and none is finished twice.
pub open spec fn orderly(calls: Seq<JobCall>) -> bool {
    forall|j: int|
        0 <= j < calls.len() && (#[trigger] calls[j]) is Complete ==> exists|i: int| #[trigger]
            finishes(calls, i, j)
}

/// A call changes the one job that it is about: what is created is pending
/// since then and under its claim, and what is completed is done, with its
/// proof id and under its claim.
pub proof fn a_call_changes_one_job(
    known: Map<Seq<char>, JobView>,
    id: Seq<char>,
    other: Seq<char>,
    created_at: u64,
    proof_id: Seq<char>,
    claim: Option<Seq<char>>,
)
    ensures
        ({
            let create = JobCall::Create { id, created_at, claim };
            let complete = JobCall::Complete { id, proof_id, claim };
            &&& create.id() == id
            &&& complete.id() == id
            &&& create.told() is None
            &&& complete.told() == Some((id, proof_id))
            &&& create.applied(known).contains_key(id)
            &&& create.applied(known)[id] == (JobView::Pending { created_at, claim })
            &&& complete.applied(known).contains_key(id)
            &&& complete.applied(known)[id] == (JobView::Done { proof_id, claim })
            &&& other != id ==> {
                &&& create.applied(known).contains_key(other) == known.contains_key(other)
                &&& complete.applied(known).contains_key(other) == known.contains_key(other)
                &&& known.contains_key(other) ==> create.applied(known)[other] == known[other]
                    && complete.applied(known)[other] == known[other]
            }
        }),
{
}

/// What is answered on a job: nothing where it is not known; that it is
/// pending, under its claim and without a proof id; or that it is done, under
/// its claim and with its proof id.
pub proof fn what_is_answered(known: Map<Seq<char>, JobView>, id: Seq<char>)
    ensures
        zk::status_of(known, id) is Some <==> known.contains_key(id),
        zk::status_of(known, id) matches Some(s) ==> {
            &&& s.job_id == id
            &&& known[id] matches JobView::Pending { created_at, claim } ==> s.state
                == "pending"@ && s.proof_id is None && s.claim == claim
            &&& known[id] matches JobView::Done { proof_id, claim } ==> s.state == "done"@
                && s.proof_id == Some(proof_id) && s.claim == claim
        },
{
}

/// What is proved for a request: 3 * 4 = 12 in the places where the request
/// leaves a number out, and its own numbers elsewhere.
pub proof fn what_is_proved(x: Option<u64>, y: Option<u64>, z: Option<u64>)
    ensures
        ({
            let c = zk::circuit_of(x, y, z);
            &&& x is None ==> c.x == Some(3u64)
            &&& x matches Some(n) ==> c.x == Some(n)
            &&& y is None ==> c.y == Some(4u64)
            &&& y matches Some(n) ==> c.y == Some(n)
            &&& z is None ==> c.z == 12
            &&& z matches Some(n) ==> c.z == n
        }),
{
}

/// Which backends prove: four names, spelled exactly so.
pub proof fn which_backends_prove(name: Seq<char>)
    ensures
        zk::proves(name) <==> name == "ark"@ || name == "arkworks"@ || name == "groth16"@ || name
            == "bn254"@,
{
}

/// What answers a prover: for a proof that verifies, the id that spells its
/// first eight bytes; else the id that spells some number.
pub proof fn what_answers_a_prover(
    outcome: Option<Result<([u8; 128], bool), String>>,
    id: Seq<char>,
) -> (n: u64)
    requires
        zk::answers(outcome, id),
    ensures
        id.len() == 16,
        outcome matches Some(Ok((bytes, true))) ==> forall|i: int|
            0 <= i < 8 ==> id[2 * i] == "0123456789abcdef"@[(#[trigger] bytes@[i]) as int / 16]
                && id[2 * i + 1] == "0123456789abcdef"@[bytes@[i] as int % 16],
        !(outcome matches Some(Ok((bytes, true)))) ==> forall|i: int|
            0 <= i < 8 ==> id[2 * i] == "0123456789abcdef"@[(
            #[trigger] zk::big_endian(n)[i]) as int / 16] && id[2 * i + 1]
                == "0123456789abcdef"@[zk::big_endian(n)[i] as int % 16],
{
    match outcome {
        Some(Ok((bytes, true))) => {
            identifiers::ids_spell_the_first_bytes(bytes@, 0);
            assert forall|i: int| 0 <= i < 8 implies id[2 * i] == "0123456789abcdef"@[(
            #[trigger] bytes@[i]) as int / 16] && id[2 * i + 1]
                == "0123456789abcdef"@[bytes@[i] as int % 16] by {
                identifiers::ids_spell_the_first_bytes(bytes@, i);
            }
            0
        },
        _ => {
            let n = choose|n: u64| id == text::hex(#[trigger] zk::big_endian(n));
            let spelled = zk::big_endian(n);
            identifiers::hex_is_made_of_digits(spelled);
            assert forall|i: int| 0 <= i < 8 implies id[2 * i] == "0123456789abcdef"@[(
            #[trigger] zk::big_endian(n)[i]) as int / 16] && id[2 * i + 1]
                == "0123456789abcdef"@[zk::big_endian(n)[i] as int % 16] by {
                identifiers::digits_stand_where_the_bytes_do(spelled, i);
            }
            n
        },
    }
}

/// Calls about other jobs leave a job as it is.
proof fn lemma_untouched(calls: Seq<JobCall>, later: Seq<JobCall>, id: Seq<char>)
    requires
        untouched(later, id),
    ensures
        table(calls + later).contains_key(id) == table(calls).contains_key(id),
        table(calls).contains_key(id) ==> table(calls + later)[id] == table(calls)[id],
        zk::status_of(table(calls + later), id) == zk::status_of(table(calls), id),
    decreases later.len(),
{
    let all = calls + later;
    if later.len() == 0 {
        assert(all =~= calls);
    } else {
        let fewer = later.drop_last();
        assert(all.drop_last() =~= calls + fewer);
        assert(all.last() == later[later.len() - 1]);
        assert forall|i: int| 0 <= i < fewer.len() implies (#[trigger] fewer[i]).id() != id by {
            assert(fewer[i] == later[i]);
        }
        lemma_untouched(calls, fewer, id);
    }
}

/// A job is found exactly if it was created; its answer bears its id, it is
/// pending or done, and it has a proof id exactly if it is done.
pub proof fn a_job_is_found_exactly_if_created(calls: Seq<JobCall>, id: Seq<char>)
    requires
        creation_comes_first(calls),
    ensures
        zk::status_of(table(calls), id) is Some <==> created(calls, id),
        zk::status_of(table(calls), id) matches Some(s) ==> s.job_id == id && (s.state
            == "pending"@ || s.state == "done"@) && (s.proof_id is Some <==> s.state == "done"@),
    decreases calls.len(),
{
    reveal_strlit("pending");
    reveal_strlit("done");
    assert("pending"@.len() != "done"@.len());
    if calls.len() > 0 {
        let fewer = calls.drop_last();
        let last = calls.last();
        assert forall|j: int| 0 <= j < fewer.len() && (#[trigger] fewer[j]) is Complete implies
            created(fewer.take(j), fewer[j].id()) by {
            assert(fewer[j] == calls[j]);
            assert(fewer.take(j) =~= calls.take(j));
        }
        a_job_is_found_exactly_if_created(fewer, id);
        if created(fewer, id) {
            let i = choose|i: int|
                0 <= i < fewer.len() && (#[trigger] fewer[i]) is Create && fewer[i].id() == id;
            assert(calls[i] is Create);
        }
        if created(calls, id) && !created(fewer, id) {
            let i = choose|i: int|
                0 <= i < calls.len() && (#[trigger] calls[i]) is Create && calls[i].id() == id;
            if i < fewer.len() {
                assert(fewer[i] == calls[i]);
            }
        }
        if last.id() == id {
            if last is Create {
                assert(calls[calls.len() - 1] is Create);
            } else {
                assert(calls[calls.len() - 1] is Complete);
                assert(calls.take(calls.len() - 1) =~= fewer);
            }
        }
    }
}

/// The last call about a job that is done is its completion.
proof fn lemma_nothing_after(calls: Seq<JobCall>, id: Seq<char>) -> (m: int)
    requires
        table(calls).contains_key(id),
        table(calls)[id] is Done,
    ensures
        0 <= m < calls.len(),
        calls[m] is Complete,
        calls[m].id() == id,
        forall|k: int| m < k < calls.len() ==> (#[trigger] calls[k]).id() != id,
    decreases calls.len(),
{
    let fewer = calls.drop_last();
    if calls.last().id() == id {
        calls.len() - 1
    } else {
        let m = lemma_nothing_after(fewer, id);
        assert forall|k: int| m < k < calls.len() implies (#[trigger] calls[k]).id() != id by {
            if k < fewer.len() {
                assert(calls[k] == fewer[k]);
            }
        }
        m
    }
}

/// A job that is done answers the same from then on, as long as its id is not
/// drawn again.
pub proof fn a_done_job_answers_the_same(
    calls: Seq<JobCall>,
    later: Seq<JobCall>,
    id: Seq<char>,
)
    requires
        orderly(calls + later),
        zk::status_of(table(calls), id) is Some,
        zk::status_of(table(calls), id)->Some_0.state == "done"@,
        !created(later, id),
    ensures
        zk::status_of(table(calls + later), id) == zk::status_of(table(calls), id),
{
    reveal_strlit("pending");
    reveal_strlit("done");
    assert("pending"@.len() != "done"@.len());
    let all = calls + later;
    let m = lemma_nothing_after(calls, id);
    assert forall|k: int| 0 <= k < later.len() implies (#[trigger] later[k]).id() != id by {
        if later[k].id() == id {
            assert(later[k] is Complete);
            let j = calls.len() + k;
            assert(all[j] == later[k]);
            let i = choose|i: int| #[trigger] finishes(all, i, j);
            let between = all.subrange(i + 1, j);
            if i >= calls.len() {
                assert(later[i - calls.len()] == all[i]);
                assert(created(later, id));
            } else {
                assert(all[i] == calls[i]);
                assert(i <= m);
                assert(i != m);
                assert(between[m - i - 1] == all[m]);
                assert(all[m] == calls[m]);
            }
        }
    }
    lemma_untouched(calls, later, id);
}

/// A job id as it is drawn: six bytes in hexadecimal.
pub open spec fn drawn(job_id: Seq<char>) -> bool {
    exists|bytes: Seq<u8>| bytes.len() == 6 && job_id == #[trigger] text::hex(bytes)
}

/// The proof ids that observers are told of a job, in the order of the calls.
pub open spec fn told_of(calls: Seq<JobCall>, id: Seq<char>) -> Seq<Seq<char>>
    decreases calls.len(),
{
    if calls.len() == 0 {
        Seq::empty()
    } else {
        let before = told_of(calls.drop_last(), id);
        match calls.last().told() {
            Some((job, proof_id)) => if job == id {
                before.push(proof_id)
            } else {
                before
            },
            None => before,
        }
    }
}

/// Calls about other jobs tell nothing of a job.
proof fn lemma_nothing_told(calls: Seq<JobCall>, later: Seq<JobCall>, id: Seq<char>)
    requires
        untouched(later, id),
    ensures
        told_of(calls + later, id) == told_of(calls, id),
    decreases later.len(),
{
    let all = calls + later;
    if later.len() == 0 {
        assert(all =~= calls);
    } else {
        let fewer = later.drop_last();
        assert(all.drop_last() =~= calls + fewer);
        assert(all.last() == later[later.len() - 1]);
        assert forall|i: int| 0 <= i < fewer.len() implies (#[trigger] fewer[i]).id() != id by {
            assert(fewer[i] == later[i]);
        }
        lemma_nothing_told(calls, fewer, id);
    }
}

/// Before a job is created, no call is about it.
proof fn lemma_untouched_before(calls: Seq<JobCall>, id: Seq<char>)
    requires
        creation_comes_first(calls),
        !created(calls, id),
    ensures
        untouched(calls, id),
{
    assert forall|i: int| 0 <= i < calls.len() implies (#[trigger] calls[i]).id() != id by {
        if calls[i].id() == id {
            assert(calls[i] is Complete);
            assert(created(calls.take(i), id));
            let k = choose|k: int|
                0 <= k < i && (#[trigger] calls.take(i)[k]) is Create && calls.take(i)[k].id()
                    == id;
            assert(calls[k] is Create);
        }
    }
}

/// The text has this many characters, all of them digits of hexadecimal.
pub open spec fn hex_digits(id: Seq<char>, count: int) -> bool {
    &&& id.len() == count
    &&& forall|i: int| 0 <= i < count ==> identifiers::is_hex_digit(#[trigger] id[i])
}

/// The life of a job.  Its id is not known before it is created.  From then on
/// it is found: it is pending under its claim until it is completed, and done
/// under the same claim and with its proof id ever after; that id is told of
/// it once, and nothing else.  Whatever the prover gave, the proof id has
/// sixteen digits; the job id has twelve.
pub proof fn life_of_a_job(
    before: Seq<JobCall>,
    id: Seq<char>,
    created_at: u64,
    claim: Option<Seq<char>>,
    meanwhile: Seq<JobCall>,
    outcome: Option<Result<([u8; 128], bool), String>>,
    proof_id: Seq<char>,
    later: Seq<JobCall>,
)
    requires
        creation_comes_first(before),
        !created(before, id),
        drawn(id),
        zk::answers(outcome, proof_id),
        untouched(meanwhile, id),
        untouched(later, id),
    ensures
        ({
            let begun = before.push(JobCall::Create { id, created_at, claim }) + meanwhile;
            let ended = begun.push(JobCall::Complete { id, proof_id, claim }) + later;
            &&& zk::status_of(table(before), id) is None
            &&& zk::status_of(table(begun), id) == Some(
                zk::StatusView { job_id: id, state: "pending"@, proof_id: None, claim },
            )
            &&& zk::status_of(table(ended), id) == Some(
                zk::StatusView { job_id: id, state: "done"@, proof_id: Some(proof_id), claim },
            )
            &&& told_of(begun, id) == Seq::<Seq<char>>::empty()
            &&& told_of(ended, id) == seq![proof_id]
            &&& hex_digits(id, 12)
            &&& hex_digits(proof_id, 16)
        }),
{
    a_job_is_found_exactly_if_created(before, id);
    let create = JobCall::Create { id, created_at, claim };
    let complete = JobCall::Complete { id, proof_id, claim };
    let begun = before.push(create) + meanwhile;
    assert(before.push(create).drop_last() =~= before);
    lemma_untouched(before.push(create), meanwhile, id);
    assert(begun.push(complete).drop_last() =~= begun);
    lemma_untouched(begun.push(complete), later, id);
    let six = choose|bytes: Seq<u8>| bytes.len() == 6 && id == #[trigger] text::hex(bytes);
    identifiers::hex_is_made_of_digits(six);
    lemma_untouched_before(before, id);
    assert(Seq::<JobCall>::empty() + before =~= before);
    lemma_nothing_told(Seq::empty(), before, id);
    lemma_nothing_told(before.push(create), meanwhile, id);
    lemma_nothing_told(begun.push(complete), later, id);
    assert(told_of(begun.push(complete), id) =~= seq![proof_id]);
    match outcome {
        Some(Ok((bytes, true))) => {
            identifiers::proof_ids_have_sixteen_digits(bytes@);
        },
        _ => {
            let n = choose|n: u64| proof_id == text::hex(#[trigger] zk::big_endian(n));
            identifiers::hex_is_made_of_digits(zk::big_endian(n));
        },
    }
}

} // verus!
