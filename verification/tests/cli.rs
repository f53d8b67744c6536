use circuit_synth::halo2::cli::{
    exit_status, halo2, select_inputs, Halo2Commands, Halo2Compile, Halo2Prove, Halo2Step,
    Halo2Verify, InputSource,
};

#[test]
fn compile_reads_builds_and_writes() {
    let command = Halo2Commands::Compile(Halo2Compile {
        source: "main.pir".to_string(),
        output: "main.halo2".to_string(),
    });
    assert_eq!(
        halo2(&command),
        vec![
            Halo2Step::ReadSource("main.pir".to_string()),
            Halo2Step::BuildCircuit,
            Halo2Step::WriteCircuit("main.halo2".to_string()),
        ]
    );
}

#[test]
fn prove_populates_before_it_proves() {
    let command = Halo2Commands::Prove(Halo2Prove {
        circuit: "main.halo2".to_string(),
        output: "main.proof".to_string(),
        inputs: Some("main.inputs".to_string()),
    });
    assert_eq!(
        halo2(&command),
        vec![
            Halo2Step::ReadCircuit("main.halo2".to_string()),
            Halo2Step::ReadInputs(Some("main.inputs".to_string())),
            Halo2Step::PopulateVariables,
            Halo2Step::GenerateProvingKey,
            Halo2Step::Prove,
            Halo2Step::WriteProof("main.proof".to_string()),
        ]
    );
}

#[test]
fn prove_without_named_inputs() {
    let command = Halo2Commands::Prove(Halo2Prove {
        circuit: "c".to_string(),
        output: "p".to_string(),
        inputs: None,
    });
    assert_eq!(halo2(&command)[1], Halo2Step::ReadInputs(None));
}

#[test]
fn verify_reads_circuit_and_proof() {
    let command = Halo2Commands::Verify(Halo2Verify {
        circuit: "main.halo2".to_string(),
        proof: "main.proof".to_string(),
    });
    assert_eq!(
        halo2(&command),
        vec![
            Halo2Step::ReadCircuit("main.halo2".to_string()),
            Halo2Step::GenerateVerifyingKey,
            Halo2Step::ReadProof("main.proof".to_string()),
            Halo2Step::Verify,
        ]
    );
}

#[test]
fn inputs_come_from_the_named_file_first() {
    assert_eq!(
        select_inputs(&Some("in".to_string()), true),
        InputSource::Named("in".to_string())
    );
    assert_eq!(
        select_inputs(&Some("in".to_string()), false),
        InputSource::Named("in".to_string())
    );
    assert_eq!(select_inputs(&None, true), InputSource::Beside);
    assert_eq!(select_inputs(&None, false), InputSource::Prompt);
}

#[test]
fn exit_status_is_zero_for_a_valid_proof_only() {
    assert_eq!(exit_status(true), 0);
    assert_eq!(exit_status(false), 1);
}
