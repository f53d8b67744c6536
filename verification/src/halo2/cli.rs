//! The three subcommands of the table backend, as plans.
//!
//! Running a subcommand means reading and writing files, asking for inputs
//! and calling the proof system. None of that happens here: [`halo2`] says
//! which steps a subcommand consists of and in what order, and the caller
//! carries them out.

use vstd::prelude::*;

verus! {

/// Compiles a source file to a circuit.
pub struct Halo2Compile {
    /// Path to the source file to be compiled.
    pub source: String,
    /// Path to which the circuit is written.
    pub output: String,
}

/// Proves knowledge of witnesses that satisfy a circuit.
pub struct Halo2Prove {
    /// Path to the circuit on which to construct the proof.
    pub circuit: String,
    /// Path to which the proof is written.
    pub output: String,
    /// Path to the prover's input file.
    pub inputs: Option<String>,
}

/// Verifies that a proof is a correct one.
pub struct Halo2Verify {
    /// Path to the circuit of the proof.
    pub circuit: String,
    /// Path to the proof that is being verified.
    pub proof: String,
}

/// The subcommands.
pub enum Halo2Commands {
    Compile(Halo2Compile),
    Prove(Halo2Prove),
    Verify(Halo2Verify),
}

/// Where the prover's inputs come from.
#[derive(PartialEq, Eq, Debug)]
pub enum InputSource {
    /// The file that was named on the command line.
    Named(String),
    /// The file beside the circuit, with the extension `inputs`.
    Beside,
    /// The terminal.
    Prompt,
}

/// One step of a subcommand.
#[derive(PartialEq, Eq, Debug)]
pub enum Halo2Step {
    /// Read and parse the source file, and bring it into normal form.
    ReadSource(String),
    /// Build the circuit of the module and its public parameters.
    BuildCircuit,
    /// Write public parameters and circuit.
    WriteCircuit(String),
    /// Read public parameters and circuit.
    ReadCircuit(String),
    /// Read the prover's inputs; the path is the one named on the command
    /// line, if one was.
    ReadInputs(Option<String>),
    /// Give every variable of the circuit its value.
    PopulateVariables,
    /// Derive the proving key.
    GenerateProvingKey,
    /// Construct the proof.
    Prove,
    /// Write the proof.
    WriteProof(String),
    /// Derive the verifying key.
    GenerateVerifyingKey,
    /// Read the proof.
    ReadProof(String),
    /// Run the verifier and report what it found.
    Verify,
}

/// The steps of a subcommand, in order.
pub open spec fn plan_of(commands: Halo2Commands) -> Seq<Halo2Step> {
    match commands {
        Halo2Commands::Compile(args) => seq![
            Halo2Step::ReadSource(args.source),
            Halo2Step::BuildCircuit,
            Halo2Step::WriteCircuit(args.output),
        ],
        Halo2Commands::Prove(args) => seq![
            Halo2Step::ReadCircuit(args.circuit),
            Halo2Step::ReadInputs(args.inputs),
            Halo2Step::PopulateVariables,
            Halo2Step::GenerateProvingKey,
            Halo2Step::Prove,
            Halo2Step::WriteProof(args.output),
        ],
        Halo2Commands::Verify(args) => seq![
            Halo2Step::ReadCircuit(args.circuit),
            Halo2Step::GenerateVerifyingKey,
            Halo2Step::ReadProof(args.proof),
            Halo2Step::Verify,
        ],
    }
}

/// The steps that compile a source file to a circuit.
fn compile_halo2_cmd(args: &Halo2Compile) -> (plan: Vec<Halo2Step>)
    ensures
        plan@ == plan_of(Halo2Commands::Compile(*args)),
{
    let mut plan: Vec<Halo2Step> = Vec::new();
    plan.push(Halo2Step::ReadSource(args.source.clone()));
    plan.push(Halo2Step::BuildCircuit);
    plan.push(Halo2Step::WriteCircuit(args.output.clone()));
    assert(plan@ =~= plan_of(Halo2Commands::Compile(*args)));
    plan
}

/// The steps that make a proof from a circuit and inputs.
fn prove_halo2_cmd(args: &Halo2Prove) -> (plan: Vec<Halo2Step>)
    ensures
        plan@ == plan_of(Halo2Commands::Prove(*args)),
{
    let inputs = match &args.inputs {
        Some(path) => Some(path.clone()),
        None => None,
    };
    let mut plan: Vec<Halo2Step> = Vec::new();
    plan.push(Halo2Step::ReadCircuit(args.circuit.clone()));
    plan.push(Halo2Step::ReadInputs(inputs));
    plan.push(Halo2Step::PopulateVariables);
    plan.push(Halo2Step::GenerateProvingKey);
    plan.push(Halo2Step::Prove);
    plan.push(Halo2Step::WriteProof(args.output.clone()));
    assert(plan@ =~= plan_of(Halo2Commands::Prove(*args)));
    plan
}

/// The steps that verify a proof against a circuit.
fn verify_halo2_cmd(args: &Halo2Verify) -> (plan: Vec<Halo2Step>)
    ensures
        plan@ == plan_of(Halo2Commands::Verify(*args)),
{
    let mut plan: Vec<Halo2Step> = Vec::new();
    plan.push(Halo2Step::ReadCircuit(args.circuit.clone()));
    plan.push(Halo2Step::GenerateVerifyingKey);
    plan.push(Halo2Step::ReadProof(args.proof.clone()));
    plan.push(Halo2Step::Verify);
    assert(plan@ =~= plan_of(Halo2Commands::Verify(*args)));
    plan
}

/// The steps that carry out the subcommand, in order.
pub fn halo2(halo2_commands: &Halo2Commands) -> (plan: Vec<Halo2Step>)
    ensures
        plan@ == plan_of(*halo2_commands),
{
    match halo2_commands {
        Halo2Commands::Compile(args) => compile_halo2_cmd(args),
        Halo2Commands::Prove(args) => prove_halo2_cmd(args),
        Halo2Commands::Verify(args) => verify_halo2_cmd(args),
    }
}

/// Where the inputs of a proof are read from: the file named on the command
/// line; if none was named, the file beside the circuit where there is one;
/// and the terminal otherwise.
pub fn select_inputs(named: &Option<String>, beside_exists: bool) -> (source: InputSource)
    ensures
        source == match *named {
            Some(path) => InputSource::Named(path),
            None => if beside_exists {
                InputSource::Beside
            } else {
                InputSource::Prompt
            },
        },
{
    match named {
        Some(path) => InputSource::Named(path.clone()),
        None => if beside_exists {
            InputSource::Beside
        } else {
            InputSource::Prompt
        },
    }
}

/// The exit status of a verification: zero exactly for a valid proof.
pub fn exit_status(valid: bool) -> (status: i32)
    ensures
        (status == 0) == valid,
        status == 0 || status == 1,
{
    if valid {
        0
    } else {
        1
    }
}

} // verus!
