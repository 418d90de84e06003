//! Proof ids and background jobs.
use ark_bn254::{Bn254, Fr};
use ark_groth16::{prepare_verifying_key, Groth16};
use ark_relations::r1cs::{ConstraintSynthesizer, ConstraintSystemRef, LinearCombination, SynthesisError};
use ark_serialize::CanonicalSerialize;
use ark_snark::{CircuitSpecificSetupSNARK, SNARK};
use flashpoint::events::Event;
use flashpoint::rejection::Rejection;
use flashpoint::zk::{
    finish_proof, groth_proof_id, groth_proof_id_inputs, new_job_id, plan_by_setting, plan_proof,
    proof_id_for, proving_delay_ms,
    selected_backend, settle_proof_id, stub_proof_id, zk_backend, AssignmentMissing, MulCircuit,
    MulConstraint, ProofPlan, ZkJobs,
};

/// The circuit of the library, for the prover.
struct Circuit(MulCircuit);

impl ConstraintSynthesizer<Fr> for Circuit {
    fn generate_constraints(self, cs: ConstraintSystemRef<Fr>) -> Result<(), SynthesisError> {
        let c = match self.0.generate_constraints() {
            Ok(c) => c,
            Err(AssignmentMissing) => return Err(SynthesisError::AssignmentMissing),
        };
        let z = cs.new_input_variable(|| Ok(Fr::from(c.product)))?;
        let x = cs.new_witness_variable(|| Ok(Fr::from(c.left)))?;
        let y = cs.new_witness_variable(|| Ok(Fr::from(c.right)))?;
        cs.enforce_constraint(LinearCombination::from(x), LinearCombination::from(y), LinearCombination::from(z))
    }
}

/// Proves a circuit, and has the proof verified against a public number.
fn prove(circuit: MulCircuit, against: u64) -> ([u8; 128], bool) {
    let mut rng = rand::thread_rng();
    let (pk, vk) = Groth16::<Bn254>::setup(Circuit(circuit), &mut rng).unwrap();
    let pvk = prepare_verifying_key(&vk);
    let found = Groth16::<Bn254>::prove(&pk, Circuit(circuit), &mut rng).unwrap();
    let public = [Fr::from(against)];
    let verified = Groth16::<Bn254>::verify_with_processed_vk(&pvk, &public, &found).unwrap();
    let mut bytes = Vec::new();
    found.serialize_compressed(&mut bytes).unwrap();
    (bytes.try_into().unwrap(), verified)
}

fn is_hex(id: &str) -> bool {
    id.chars().all(|c| c.is_ascii_digit() || ('a'..='f').contains(&c))
}

#[test]
fn zk_ark_sync_prove_with_inputs() {
    let circuit = match plan_proof("ark", Some(3), Some(4), Some(12)) {
        ProofPlan::Prove(circuit) => circuit,
        ProofPlan::Stub => panic!("no proof planned"),
    };
    let (bytes, verified) = prove(circuit, 12);
    assert!(verified);
    let id = groth_proof_id_inputs(Ok((bytes, verified))).unwrap();
    let proof_id = finish_proof(Some(Ok(id)));
    assert!(!proof_id.is_empty());
    assert_eq!(proof_id_for(Some(Ok((bytes, verified)))), proof_id);
    let expected: String = bytes[..8].iter().map(|b| format!("{:02x}", b)).collect();
    assert_eq!(proof_id, expected);
}

#[test]
fn zk_ark_async_prove_with_inputs() {
    let mut jobs = ZkJobs::new();
    let job_id = new_job_id();
    jobs.create(job_id.clone(), 1, None);
    assert_eq!(jobs.status(job_id.clone()).unwrap().state, "pending");
    let circuit = match plan_proof("ark", Some(5), Some(6), Some(30)) {
        ProofPlan::Prove(circuit) => circuit,
        ProofPlan::Stub => panic!("no proof planned"),
    };
    let proof_id = proof_id_for(Some(Ok(prove(circuit, 30))));
    assert_eq!(proof_id.len(), 16);
    assert!(is_hex(&proof_id));
    jobs.complete(job_id.clone(), proof_id.clone(), None);
    let status = jobs.status(job_id).unwrap();
    assert_eq!(status.state, "done");
    assert_eq!(status.proof_id, Some(proof_id.clone()));
    assert!(!proof_id.is_empty());
}

#[test]
fn zk_prove_returns_proof_id() {
    let backend = selected_backend(None);
    assert_eq!(backend, "stub");
    assert!(matches!(plan_proof(&backend, None, None, None), ProofPlan::Stub));
    let pid = finish_proof(None);
    assert_eq!(pid.len(), 16);
    assert!(is_hex(&pid));
}

#[test]
fn zk_async_job_lifecycle() {
    let mut jobs = ZkJobs::new();
    let job_id = new_job_id();
    assert_eq!(job_id.len(), 12);
    assert!(is_hex(&job_id));
    assert_eq!(jobs.status(job_id.clone()).unwrap_err(), Rejection::JobNotFound);
    jobs.create(job_id.clone(), 17, Some("demo-async".to_string()));
    let pending = jobs.status(job_id.clone()).unwrap();
    assert_eq!(pending.state, "pending");
    assert_eq!(pending.job_id, job_id);
    assert_eq!(pending.proof_id, None);
    assert_eq!(pending.claim, Some("demo-async".to_string()));
    let proof_id = finish_proof(None);
    let (created, event) =
        jobs.complete(job_id.clone(), proof_id.clone(), Some("demo-async".to_string()));
    assert_eq!(created, Some(17));
    assert_eq!(event.label(), "zk_job_done");
    assert!(!event.traced());
    match event {
        Event::ZkJobDone { job_id: told, proof_id: found } => {
            assert_eq!(told, job_id);
            assert_eq!(found, proof_id);
        }
        other => panic!("{other:?}"),
    }
    let done = jobs.status(job_id.clone()).unwrap();
    assert_eq!(done.state, "done");
    assert_eq!(done.proof_id, Some(proof_id.clone()));
    assert_eq!(done.claim, Some("demo-async".to_string()));
    assert_eq!(jobs.complete(job_id, proof_id.clone(), None).0, None);
    assert_eq!(jobs.complete("other".to_string(), proof_id, None).0, None);
}

#[test]
fn unknown_jobs_are_not_found() {
    let refused = ZkJobs::new().status("nothing".to_string()).unwrap_err();
    assert_eq!(refused.status(), 404);
    assert_eq!(refused.detail(), "job not found");
}

#[test]
fn backends_by_name() {
    assert_eq!(selected_backend(Some("ARK")), "ark");
    assert_eq!(selected_backend(Some("Groth16")), "groth16");
    assert_eq!(zk_backend(Some("ARK")), "ARK");
    assert_eq!(zk_backend(None), "stub");
    for name in ["ark", "arkworks", "groth16", "bn254"] {
        assert!(matches!(plan_proof(name, None, None, None), ProofPlan::Prove(_)));
    }
    for name in ["ARK", "stub", "", "plonk"] {
        assert!(matches!(plan_proof(name, None, None, None), ProofPlan::Stub));
    }
}

#[test]
fn numbers_left_out_have_defaults() {
    match plan_proof("ark", None, Some(9), None) {
        ProofPlan::Prove(c) => {
            assert_eq!((c.x, c.y, c.z), (Some(3), Some(9), 12));
            let k = c.generate_constraints().unwrap();
            assert_eq!(k, MulConstraint { left: 3, right: 9, product: 12 });
        }
        ProofPlan::Stub => panic!("no proof planned"),
    }
    match plan_proof("ark", None, None, None) {
        ProofPlan::Prove(c) => {
            assert_eq!((c.x, c.y, c.z), (Some(3), Some(4), 12));
            let k = c.generate_constraints().unwrap();
            assert_eq!(k.left * k.right, k.product);
        }
        ProofPlan::Stub => panic!("no proof planned"),
    }
}

#[test]
fn a_missing_number_is_an_error() {
    let c = MulCircuit { x: None, y: Some(4), z: 12 };
    assert_eq!(c.generate_constraints(), Err(AssignmentMissing));
    let c = MulCircuit { x: Some(3), y: None, z: 12 };
    assert_eq!(c.generate_constraints(), Err(AssignmentMissing));
}

#[test]
fn ids_from_bytes_and_numbers() {
    assert_eq!(groth_proof_id(&[0x00, 0x1f, 0xab, 0xff, 4, 5, 6, 7, 8, 9]), "001fabff04050607");
    assert_eq!(groth_proof_id(&[0xde, 0xad]), "dead");
    assert_eq!(groth_proof_id(&[]), "");
    assert_eq!(stub_proof_id(0), "0000000000000000");
    assert_eq!(stub_proof_id(0x0123_4567_89ab_cdef), "0123456789abcdef");
    assert_eq!(stub_proof_id(u64::MAX), format!("{:016x}", u64::MAX));
    assert_ne!(stub_proof_id(1), stub_proof_id(256));
}

#[test]
fn failed_proofs_fall_back_to_a_number() {
    let why = groth_proof_id_inputs(Err("no witness".to_string()));
    assert_eq!(why, Err("no witness".to_string()));
    assert_eq!(settle_proof_id(Some(why), 255), "00000000000000ff");
    assert_eq!(settle_proof_id(None, 16), "0000000000000010");
    assert_eq!(settle_proof_id(Some(Ok("abc".to_string())), 16), "abc");
}

#[test]
fn delays_lie_in_their_range() {
    for _ in 0..200 {
        let ms = proving_delay_ms();
        assert!((5..30).contains(&ms));
    }
}

#[test]
fn random_ids_vary() {
    let ids: Vec<String> = (0..8).map(|_| new_job_id()).collect();
    assert!(ids.iter().any(|i| *i != ids[0]));
    let pids: Vec<String> = (0..8).map(|_| finish_proof(None)).collect();
    assert!(pids.iter().any(|i| *i != pids[0]));
}

#[test]
fn a_proof_that_does_not_verify_gets_no_id() {
    let circuit = MulCircuit { x: Some(3), y: Some(4), z: 12 };
    let (bytes, verified) = prove(circuit, 13);
    assert!(!verified);
    let refused = groth_proof_id_inputs(Ok((bytes, verified)));
    assert_eq!(refused, Err("proof does not verify".to_string()));
    assert_ne!(settle_proof_id(Some(refused), 9), groth_proof_id(&bytes));
    assert_ne!(proof_id_for(Some(Ok((bytes, false)))), groth_proof_id(&bytes));
    assert_eq!(
        groth_proof_id_inputs(Ok(([0xab; 128], true))),
        Ok("abababababababab".to_string())
    );
    assert!(groth_proof_id_inputs(Ok(([0xab; 128], false))).is_err());
}

#[test]
fn a_done_job_answers_the_same_whatever_comes_after() {
    let mut jobs = ZkJobs::new();
    jobs.create("a".to_string(), 1, Some("first".to_string()));
    jobs.create("b".to_string(), 2, None);
    jobs.complete("a".to_string(), "0123456789abcdef".to_string(), Some("first".to_string()));
    for later in ["c", "d"] {
        jobs.create(later.to_string(), 3, None);
        jobs.complete(later.to_string(), "ffffffffffffffff".to_string(), None);
        let a = jobs.status("a".to_string()).unwrap();
        assert_eq!(a.job_id, "a");
        assert_eq!(a.state, "done");
        assert_eq!(a.proof_id.as_deref(), Some("0123456789abcdef"));
        assert_eq!(a.claim.as_deref(), Some("first"));
        let b = jobs.status("b".to_string()).unwrap();
        assert_eq!((b.state, b.proof_id), ("pending", None));
    }
    assert!(jobs.status("e".to_string()).is_err());
}

#[test]
fn each_setting_of_the_backend_plans() {
    for name in ["ark", "arkworks", "groth16", "bn254", "ARK", "ArkWorks", "BN254"] {
        match plan_by_setting(Some(name), Some(2), None, Some(8)) {
            ProofPlan::Prove(c) => assert_eq!((c.x, c.y, c.z), (Some(2), Some(4), 8)),
            ProofPlan::Stub => panic!("{name} plans no proof"),
        }
    }
    for name in [None, Some("stub"), Some(""), Some("arks")] {
        assert!(matches!(plan_by_setting(name, None, None, None), ProofPlan::Stub));
    }
}

#[test]
fn every_outcome_has_an_id_of_sixteen_digits() {
    let outcomes = vec![
        None,
        Some(Err("no witness".to_string())),
        Some(Ok(([7; 128], false))),
        Some(Ok(([7; 128], true))),
    ];
    for outcome in outcomes {
        let id = proof_id_for(outcome);
        assert_eq!(id.len(), 16);
        assert!(is_hex(&id));
    }
    assert_eq!(proof_id_for(Some(Ok(([7; 128], true)))), "0707070707070707");
}
