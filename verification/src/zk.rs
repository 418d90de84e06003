//! Proofs of products: which backend proves what, under which id, and the
//! jobs that prove in the background.
use vstd::hash_map::StringHashMap;
use vstd::prelude::*;

use crate::events::Event;
use crate::intent::copy_string;
use crate::random::{random_between, random_bytes, random_number};
use crate::rejection::Rejection;
use crate::text::{hex_of, same_text};
use crate::{intent, text};

verus! {

/// The statement that is proved where a request leaves its numbers out:
/// 3 * 4 = 12.
pub const DEFAULT_X: u64 = 3;

pub const DEFAULT_Y: u64 = 4;

pub const DEFAULT_Z: u64 = 12;

/// How many bytes of a proof make its id.
pub const ID_BYTES: usize = 8;

/// A circuit that proves knowledge of `x` and `y` with `x * y = z`, where `z`
/// is public.
#[derive(Clone, Copy, Debug)]
pub struct MulCircuit {
    pub x: Option<u64>,
    pub y: Option<u64>,
    pub z: u64,
}

/// The one constraint of the circuit: `left * right = product`.  The factors
/// are private, the product is the public input.
#[derive(Clone, Copy, Debug, PartialEq, Eq, Structural)]
pub struct MulConstraint {
    pub left: u64,
    pub right: u64,
    pub product: u64,
}

/// A private number of the circuit was not given.
#[derive(Clone, Copy, Debug, PartialEq, Eq, Structural)]
pub struct AssignmentMissing;

impl MulCircuit {
    /// The constraint with its numbers, unless one is missing.
    pub fn generate_constraints(self) -> (r: Result<MulConstraint, AssignmentMissing>)
        ensures
            self.x is None || self.y is None ==> r == Err::<MulConstraint, AssignmentMissing>(
                AssignmentMissing,
            ),
            self.x is Some && self.y is Some ==> r == Ok::<MulConstraint, AssignmentMissing>(
                MulConstraint { left: self.x->Some_0, right: self.y->Some_0, product: self.z },
            ),
    {
        match self.x {
            Some(left) => match self.y {
                Some(right) => Ok(MulConstraint { left, right, product: self.z }),
                None => Err(AssignmentMissing),
            },
            None => Err(AssignmentMissing),
        }
    }
}

/// What a client asks to have proved.
#[derive(Debug)]
pub struct ZkProveReq {
    pub claim: Option<String>,
    pub x: Option<u64>,
    pub y: Option<u64>,
    pub z: Option<u64>,
}

/// The lower-case equivalent of a text, by the rules of Unicode.
pub uninterp spec fn lower_case(text: Seq<char>) -> Seq<char>;

/// The text is made of lower-case ASCII letters and of digits.
pub open spec fn in_lower_case(text: Seq<char>) -> bool {
    forall|i: int|
        0 <= i < text.len() ==> ('a' <= #[trigger] text[i] <= 'z') || ('0' <= text[i] <= '9')
}

/// `str::to_lowercase`: the lower-case equivalent of the text, which depends
/// on the text alone.  Lower-case ASCII letters and digits stay as they are.
#[verifier::external_body]
fn to_lower_case(text: &str) -> (r: String)
    ensures
        r@ == lower_case(text@),
        in_lower_case(text@) ==> r@ == text@,
{
    text.to_lowercase()
}

/// The backend that a setting selects: the stub where nothing is set, else
/// the name in lower case.
pub fn selected_backend(var: Option<&str>) -> (name: String)
    ensures
        match var {
            Some(set) => name@ == lower_case(set@) && (in_lower_case(set@) ==> name@ == set@),
            None => name@ == "stub"@,
        },
{
    match var {
        Some(set) => to_lower_case(set),
        None => "stub".to_owned(),
    }
}

/// The backend as it is set, for display.
pub fn zk_backend(var: Option<&str>) -> (name: String)
    ensures
        match var {
            Some(set) => name@ == set@,
            None => name@ == "stub"@,
        },
{
    match var {
        Some(set) => set.to_owned(),
        None => "stub".to_owned(),
    }
}

/// The names under which the proving backend is known.
pub open spec fn proves(backend: Seq<char>) -> bool {
    backend == "ark"@ || backend == "arkworks"@ || backend == "groth16"@ || backend == "bn254"@
}

/// What is to be done for a proof id.
#[derive(Clone, Copy, Debug)]
pub enum ProofPlan {
    /// Prove the circuit, and take the id from the proof.
    Prove(MulCircuit),
    /// Take a random id.
    Stub,
}

/// The circuit of a request, with the default numbers for those left out.
pub open spec fn circuit_of(x: Option<u64>, y: Option<u64>, z: Option<u64>) -> MulCircuit {
    MulCircuit {
        x: Some(if x is Some { x->Some_0 } else { DEFAULT_X }),
        y: Some(if y is Some { y->Some_0 } else { DEFAULT_Y }),
        z: if z is Some { z->Some_0 } else { DEFAULT_Z },
    }
}

/// Decides how the proof id for these numbers comes about.
pub fn plan_proof(backend: &str, x: Option<u64>, y: Option<u64>, z: Option<u64>) -> (
    plan: ProofPlan)
    ensures
        plan == (if proves(backend@) {
            ProofPlan::Prove(circuit_of(x, y, z))
        } else {
            ProofPlan::Stub
        }),
{
    if same_text(backend, "ark") || same_text(backend, "arkworks") || same_text(backend, "groth16")
        || same_text(backend, "bn254") {
        ProofPlan::Prove(
            MulCircuit {
                x: Some(
                    match x {
                        Some(n) => n,
                        None => DEFAULT_X,
                    },
                ),
                y: Some(
                    match y {
                        Some(n) => n,
                        None => DEFAULT_Y,
                    },
                ),
                z: match z {
                    Some(n) => n,
                    None => DEFAULT_Z,
                },
            },
        )
    } else {
        ProofPlan::Stub
    }
}

/// The names of the proving backend, and that of the stub, are in lower case.
pub proof fn lemma_names_in_lower_case(backend: Seq<char>)
    requires
        proves(backend) || backend == "stub"@,
    ensures
        in_lower_case(backend),
{
    reveal_strlit("ark");
    reveal_strlit("arkworks");
    reveal_strlit("groth16");
    reveal_strlit("bn254");
    reveal_strlit("stub");
}

/// The stub is none of the names of the proving backend.
pub proof fn lemma_stub_proves_nothing()
    ensures
        !proves("stub"@),
{
    reveal_strlit("ark");
    reveal_strlit("arkworks");
    reveal_strlit("groth16");
    reveal_strlit("bn254");
    reveal_strlit("stub");
    assert("stub"@[0] == 's');
    assert("ark"@[0] == 'a');
    assert("arkworks"@[0] == 'a');
    assert("groth16"@[0] == 'g');
    assert("bn254"@[0] == 'b');
}

/// Decides, by the setting of the backend, how the proof id for these numbers
/// comes about.  Each name of the proving backend selects it, and where
/// nothing is set, or the stub is, nothing is proved.
pub fn plan_by_setting(
    var: Option<&str>,
    x: Option<u64>,
    y: Option<u64>,
    z: Option<u64>,
) -> (plan: ProofPlan)
    ensures
        match var {
            Some(set) => {
                &&& plan == (if proves(lower_case(set@)) {
                    ProofPlan::Prove(circuit_of(x, y, z))
                } else {
                    ProofPlan::Stub
                })
                &&& proves(set@) ==> plan == ProofPlan::Prove(circuit_of(x, y, z))
                &&& set@ == "stub"@ ==> plan == ProofPlan::Stub
            },
            None => plan == ProofPlan::Stub,
        },
{
    let backend: String = selected_backend(var);
    proof {
        lemma_stub_proves_nothing();
        if var is Some && (proves(var->Some_0@) || var->Some_0@ == "stub"@) {
            lemma_names_in_lower_case(var->Some_0@);
        }
    }
    plan_proof(backend.as_str(), x, y, z)
}

/// The id of a proof: its first bytes in hexadecimal.
pub open spec fn id_of(bytes: Seq<u8>) -> Seq<char> {
    text::hex(
        if bytes.len() > ID_BYTES {
            bytes.take(ID_BYTES as int)
        } else {
            bytes
        },
    )
}

/// The id of the proof with these bytes.
pub fn groth_proof_id(bytes: &[u8]) -> (id: String)
    ensures
        id@ == id_of(bytes@),
{
    let mut head: Vec<u8> = Vec::new();
    let mut i: usize = 0;
    while i < bytes.len() && i < ID_BYTES
        invariant
            i <= bytes@.len(),
            i <= ID_BYTES,
            head@ == bytes@.take(i as int),
        decreases bytes@.len() - i,
    {
        head.push(bytes[i]);
        i = i + 1;
        assert(head@ =~= bytes@.take(i as int));
    }
    proof {
        if bytes@.len() <= ID_BYTES {
            assert(bytes@.take(i as int) =~= bytes@);
        }
    }
    hex_of(head.as_slice())
}

/// The id of a proof of given numbers, or why there is none: the proof could
/// not be made, or not be checked, or not be written out, or it does not
/// verify.  A proof is written in 128 bytes: two curve points of 32 and one of
/// 64.  The prover works on the proof system's own circuit trait and field
/// elements; what it gave is taken here as bytes, with the verifier's answer.
pub fn groth_proof_id_inputs(outcome: Result<([u8; 128], bool), String>) -> (r: Result<
    String,
    String,
>)
    ensures
        match outcome {
            Ok((bytes, verified)) => if verified {
                r is Ok && r->Ok_0@ == id_of(bytes@) && r->Ok_0@.len() == 16
            } else {
                r is Err && r->Err_0@ == "proof does not verify"@
            },
            Err(why) => r == Err::<String, String>(why),
        },
{
    match outcome {
        Ok((bytes, verified)) => if verified {
            proof {
                text::lemma_hex_len(bytes@.take(ID_BYTES as int));
            }
            Ok(groth_proof_id(&bytes))
        } else {
            Err("proof does not verify".to_owned())
        },
        Err(why) => Err(why),
    }
}

/// The bytes of a number, the most significant first.
pub open spec fn big_endian(n: u64) -> Seq<u8> {
    Seq::new(8, |i: int| byte_at(n, i))
}

/// The byte of a number at a place, counted from the most significant.
pub open spec fn byte_at(n: u64, i: int) -> u8 {
    ((n as int / vstd::arithmetic::power::pow(256, (7 - i) as nat)) % 256) as u8
}

/// Sixteen hexadecimal digits for a number.
pub fn stub_proof_id(n: u64) -> (id: String)
    ensures
        id@ == text::hex(big_endian(n)),
        id@.len() == 16,
{
    let bytes: [u8; 8] = [
        (n / 0x100_0000_0000_0000 % 256) as u8,
        (n / 0x1_0000_0000_0000 % 256) as u8,
        (n / 0x100_0000_0000 % 256) as u8,
        (n / 0x1_0000_0000 % 256) as u8,
        (n / 0x100_0000 % 256) as u8,
        (n / 0x1_0000 % 256) as u8,
        (n / 0x100 % 256) as u8,
        (n % 256) as u8,
    ];
    proof {
        reveal_with_fuel(vstd::arithmetic::power::pow, 8);
        assert(bytes@ =~= big_endian(n));
        text::lemma_hex_len(bytes@);
    }
    hex_of(&bytes)
}

/// The proof id that an outcome gives: the id of the proof where there is
/// one, else the digits of `n`.
pub fn settle_proof_id(outcome: Option<Result<String, String>>, n: u64) -> (id: String)
    ensures
        match outcome {
            Some(Ok(found)) => id == found,
            _ => id@ == text::hex(big_endian(n)) && id@.len() == 16,
        },
{
    match outcome {
        Some(Ok(found)) => found,
        _ => stub_proof_id(n),
    }
}

/// The proof id that an outcome gives: the id of the proof where there is
/// one, else sixteen random digits.
pub fn finish_proof(outcome: Option<Result<String, String>>) -> (id: String)
    ensures
        match outcome {
            Some(Ok(found)) => id == found,
            _ => id@.len() == 16 && exists|n: u64| id@ == text::hex(#[trigger] big_endian(n)),
        },
{
    let n: u64 = random_number();
    settle_proof_id(outcome, n)
}

/// The id answers what the prover gave, if it was asked: the id of a proof that
/// verifies, and else that of some number.
pub open spec fn answers(
    outcome: Option<Result<([u8; 128], bool), String>>,
    id: Seq<char>,
) -> bool {
    match outcome {
        Some(Ok((bytes, true))) => id == id_of(bytes@),
        _ => exists|n: u64| id == text::hex(#[trigger] big_endian(n)),
    }
}

/// The proof id for what the prover gave; a random one where it was not asked,
/// or failed, or gave a proof that does not verify.
pub fn proof_id_for(outcome: Option<Result<([u8; 128], bool), String>>) -> (id: String)
    ensures
        answers(outcome, id@),
        id@.len() == 16,
{
    match outcome {
        Some(given) => finish_proof(Some(groth_proof_id_inputs(given))),
        None => finish_proof(None),
    }
}

/// How many milliseconds a background proof waits before it starts.
pub fn proving_delay_ms() -> (ms: u64)
    ensures
        5 <= ms < 30,
{
    random_between(5, 30)
}

/// The id of a new job: twelve random hexadecimal digits.
pub fn new_job_id() -> (id: String)
    ensures
        id@.len() == 12,
        exists|bytes: Seq<u8>| bytes.len() == 6 && id@ == #[trigger] text::hex(bytes),
{
    let bytes: [u8; 6] = random_bytes();
    proof {
        text::lemma_hex_len(bytes@);
    }
    hex_of(&bytes)
}

/// Where a background proof stands.
#[derive(Debug)]
pub enum ZkJobState {
    Pending { created_at: u64, claim: Option<String> },
    Done { proof_id: String, claim: Option<String> },
}

pub enum JobView {
    Pending { created_at: u64, claim: Option<Seq<char>> },
    Done { proof_id: Seq<char>, claim: Option<Seq<char>> },
}

impl View for ZkJobState {
    type V = JobView;

    open spec fn view(&self) -> JobView {
        match *self {
            ZkJobState::Pending { created_at, claim } => JobView::Pending {
                created_at,
                claim: intent::text(claim),
            },
            ZkJobState::Done { proof_id, claim } => JobView::Done {
                proof_id: proof_id@,
                claim: intent::text(claim),
            },
        }
    }
}

/// What a client learns of a job.
#[derive(Debug)]
pub struct ZkJobStatusResp {
    pub job_id: String,
    pub state: &'static str,
    pub proof_id: Option<String>,
    pub claim: Option<String>,
}

pub struct StatusView {
    pub job_id: Seq<char>,
    pub state: Seq<char>,
    pub proof_id: Option<Seq<char>>,
    pub claim: Option<Seq<char>>,
}

impl View for ZkJobStatusResp {
    type V = StatusView;

    open spec fn view(&self) -> StatusView {
        StatusView {
            job_id: self.job_id@,
            state: self.state@,
            proof_id: intent::text(self.proof_id),
            claim: intent::text(self.claim),
        }
    }
}

/// What a client learns of a job in a table of jobs; nothing where the table
/// does not hold it.
pub open spec fn status_of(known: Map<Seq<char>, JobView>, id: Seq<char>) -> Option<StatusView> {
    if !known.contains_key(id) {
        None
    } else {
        Some(
            match known[id] {
                JobView::Pending { claim, .. } => StatusView {
                    job_id: id,
                    state: "pending"@,
                    proof_id: None,
                    claim,
                },
                JobView::Done { proof_id, claim } => StatusView {
                    job_id: id,
                    state: "done"@,
                    proof_id: Some(proof_id),
                    claim,
                },
            },
        )
    }
}

/// A call that changes the table of jobs.
pub enum JobCall {
    Create { id: Seq<char>, created_at: u64, claim: Option<Seq<char>> },
    Complete { id: Seq<char>, proof_id: Seq<char>, claim: Option<Seq<char>> },
}

impl JobCall {
    /// The job that the call is about.
    pub open spec fn id(self) -> Seq<char> {
        match self {
            JobCall::Create { id, .. } => id,
            JobCall::Complete { id, .. } => id,
        }
    }

    /// What observers are told by the call: the job and the proof id of one
    /// that is completed.
    pub open spec fn told(self) -> Option<(Seq<char>, Seq<char>)> {
        match self {
            JobCall::Create { .. } => None,
            JobCall::Complete { id, proof_id, .. } => Some((id, proof_id)),
        }
    }

    /// The table after the call: a job that is created is pending, and one
    /// that is completed is done.
    pub open spec fn applied(self, known: Map<Seq<char>, JobView>) -> Map<Seq<char>, JobView> {
        match self {
            JobCall::Create { id, created_at, claim } => known.insert(
                id,
                JobView::Pending { created_at, claim },
            ),
            JobCall::Complete { id, proof_id, claim } => known.insert(
                id,
                JobView::Done { proof_id, claim },
            ),
        }
    }
}

/// The background proofs by their ids.
pub struct ZkJobs {
    pub jobs: StringHashMap<ZkJobState>,
}

impl ZkJobs {
    pub open spec fn known(self) -> Map<Seq<char>, JobView> {
        self.jobs@.map_values(|s: ZkJobState| s@)
    }

    /// No job.
    pub fn new() -> (jobs: ZkJobs)
        ensures
            jobs.known() == Map::<Seq<char>, JobView>::empty(),
    {
        let jobs: ZkJobs = ZkJobs { jobs: StringHashMap::new() };
        assert(jobs.known() =~= Map::<Seq<char>, JobView>::empty());
        jobs
    }

    /// Takes a job in: it is pending.
    pub fn create(&mut self, job_id: String, created_at: u64, claim: Option<String>)
        ensures
            final(self).known() == (JobCall::Create {
                id: job_id@,
                created_at,
                claim: intent::text(claim),
            }).applied(old(self).known()),
    {
        self.jobs.insert(job_id, ZkJobState::Pending { created_at, claim });
        assert(self.known() =~= old(self).known().insert(
            job_id@,
            JobView::Pending { created_at, claim: intent::text(claim) },
        ));
    }

    /// Marks a job as done.  Gives when it was created, if it was pending, and
    /// the one event that tells of it.
    pub fn complete(&mut self, job_id: String, proof_id: String, claim: Option<String>) -> (r: (
        Option<u64>,
        Event,
    ))
        ensures
            final(self).known() == (JobCall::Complete {
                id: job_id@,
                proof_id: proof_id@,
                claim: intent::text(claim),
            }).applied(old(self).known()),
            match r.0 {
                Some(at) => old(self).known().contains_key(job_id@) && (old(self).known()[job_id@]
                    matches JobView::Pending { created_at, .. } && created_at == at),
                None => !old(self).known().contains_key(job_id@) || old(self).known()[job_id@]
                    is Done,
            },
            r.1 matches Event::ZkJobDone { job_id: told, proof_id: found } && (JobCall::Complete {
                id: job_id@,
                proof_id: proof_id@,
                claim: intent::text(claim),
            }).told() == Some((told@, found@)),
    {
        let created: Option<u64> = match self.jobs.get(job_id.as_str()) {
            Some(state) => match state {
                ZkJobState::Pending { created_at, .. } => Some(*created_at),
                ZkJobState::Done { .. } => None,
            },
            None => None,
        };
        let event: Event = Event::ZkJobDone { job_id: job_id.clone(), proof_id: proof_id.clone() };
        self.jobs.insert(job_id, ZkJobState::Done { proof_id, claim });
        assert(self.known() =~= old(self).known().insert(
            job_id@,
            JobView::Done { proof_id: proof_id@, claim: intent::text(claim) },
        ));
        (created, event)
    }

    /// Where a job stands.
    pub fn status(&self, job_id: String) -> (r: Result<ZkJobStatusResp, Rejection>)
        ensures
            match status_of(self.known(), job_id@) {
                Some(status) => r is Ok && r->Ok_0@ == status,
                None => r == Err::<ZkJobStatusResp, Rejection>(Rejection::JobNotFound),
            },
    {
        match self.jobs.get(job_id.as_str()) {
            None => Err(Rejection::JobNotFound),
            Some(state) => match state {
                ZkJobState::Pending { claim, .. } => Ok(
                    ZkJobStatusResp {
                        state: "pending",
                        proof_id: None,
                        claim: copy_string(claim),
                        job_id,
                    },
                ),
                ZkJobState::Done { proof_id, claim } => Ok(
                    ZkJobStatusResp {
                        state: "done",
                        proof_id: Some(proof_id.clone()),
                        claim: copy_string(claim),
                        job_id,
                    },
                ),
            },
        }
    }
}

} // verus!
