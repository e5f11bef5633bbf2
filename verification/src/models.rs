//! The records that travel between the store, the transport and the workers.
//!
//! Every real-valued quantity is carried as the bit pattern of its IEEE 754
//! double (what `f64::to_bits` gives). The distributor never computes with a
//! measurement; it keeps it and hands it out again, bit for bit.

use vstd::prelude::*;

verus! {

/// The settings that the server reads from its environment.
#[derive(Clone, Debug, PartialEq, Eq)]
pub struct EnvConfig {
    pub db_host: String,
    pub db_port: u16,
    pub db_name: String,
    pub db_user: String,
    pub db_password: String,
    /// The store's root certificate: DER, written in base64.
    pub db_cert: String,
    /// The socket address to listen on, as text.
    pub listen_addr: String,
    pub listen_password: String,
    /// The file that holds the tasks to seed, where the server runs in setup mode.
    pub setup_csv: Option<String>,
}

/// One simulation: twelve input parameters and up to four results.
///
/// The inputs never change. The results are absent until a worker has sent
/// them, and then all four are present.
#[derive(Clone, Copy, Debug, PartialEq, Eq)]
pub struct Data {
    pub tip_b: u64,
    pub root_b: u64,
    pub span_b: u64,
    pub sweep_b: u64,
    pub body_length_b: u64,
    pub tip_s: u64,
    pub root_s: u64,
    pub span_s: u64,
    pub sweep_s: u64,
    pub body_length_s: u64,
    pub body_diameter_bs: u64,
    pub mach_number: u64,
    pub power_on_bs: Option<u64>,
    pub power_off_bs: Option<u64>,
    pub power_on_s: Option<u64>,
    pub power_off_s: Option<u64>,
}

/// The four results of one simulation, as a worker sends them.
#[derive(Clone, Copy, Debug, PartialEq, Eq)]
pub struct OptionalData {
    pub power_on_bs: u64,
    pub power_off_bs: u64,
    pub power_on_s: u64,
    pub power_off_s: u64,
}

/// The identifier of a task: given once, when the task is created, and never reused.
#[derive(Clone, Copy, Debug, PartialEq, Eq, Structural)]
pub struct RowId(pub i64);

/// What a worker receives when it claims a task.
#[derive(Clone, Copy, Debug, PartialEq, Eq)]
pub struct GetResponse {
    pub id: RowId,
    pub data: Data,
}

/// What a worker sends to complete a task.
#[derive(Clone, Copy, Debug, PartialEq, Eq)]
pub struct PostRequest {
    pub id: RowId,
    pub data: OptionalData,
}

/// A task: one simulation as the store keeps it.
#[derive(Clone, Copy, Debug, PartialEq, Eq)]
pub struct Task {
    pub id: RowId,
    pub data: Data,
    /// Set once, together with the results.
    pub complete: bool,
    /// The task's place in the claim order: the smallest key is claimed next.
    /// Every claim gives the task a fresh key from the ordering sequence.
    pub order_key: u64,
}

impl Task {
    /// Either incomplete with no result, or complete with all four: never a mix.
    pub open spec fn settled(self) -> bool {
        if self.complete {
            self.data.solved()
        } else {
            self.data.unsolved()
        }
    }
}

impl Data {
    /// No result is present.
    pub open spec fn unsolved(self) -> bool {
        &&& self.power_on_bs is None
        &&& self.power_off_bs is None
        &&& self.power_on_s is None
        &&& self.power_off_s is None
    }

    /// All four results are present.
    pub open spec fn solved(self) -> bool {
        &&& self.power_on_bs is Some
        &&& self.power_off_bs is Some
        &&& self.power_on_s is Some
        &&& self.power_off_s is Some
    }

    /// The twelve inputs, in the order of the store's columns.
    pub open spec fn parameter_seq(self) -> Seq<u64> {
        seq![
            self.tip_b,
            self.root_b,
            self.span_b,
            self.sweep_b,
            self.body_length_b,
            self.tip_s,
            self.root_s,
            self.span_s,
            self.sweep_s,
            self.body_length_s,
            self.body_diameter_bs,
            self.mach_number,
        ]
    }

    /// The same inputs with no result.
    pub open spec fn cleared(self) -> Data {
        Data { power_on_bs: None, power_off_bs: None, power_on_s: None, power_off_s: None, ..self }
    }

    /// The same inputs with the given results.
    pub open spec fn solved_with(self, results: OptionalData) -> Data {
        Data {
            power_on_bs: Some(results.power_on_bs),
            power_off_bs: Some(results.power_off_bs),
            power_on_s: Some(results.power_on_s),
            power_off_s: Some(results.power_off_s),
            ..self
        }
    }

    /// The results, where all four are present.
    pub open spec fn result_values(self) -> Option<OptionalData> {
        if self.solved() {
            Some(
                OptionalData {
                    power_on_bs: self.power_on_bs->Some_0,
                    power_off_bs: self.power_off_bs->Some_0,
                    power_on_s: self.power_on_s->Some_0,
                    power_off_s: self.power_off_s->Some_0,
                },
            )
        } else {
            None
        }
    }

    /// A simulation without results, from its twelve inputs in column order.
    pub fn from_parameters(parameters: [u64; 12]) -> (data: Data)
        ensures
            data.parameter_seq() == parameters@,
            data.unsolved(),
    {
        let data = Data {
            tip_b: parameters[0],
            root_b: parameters[1],
            span_b: parameters[2],
            sweep_b: parameters[3],
            body_length_b: parameters[4],
            tip_s: parameters[5],
            root_s: parameters[6],
            span_s: parameters[7],
            sweep_s: parameters[8],
            body_length_s: parameters[9],
            body_diameter_bs: parameters[10],
            mach_number: parameters[11],
            power_on_bs: None,
            power_off_bs: None,
            power_on_s: None,
            power_off_s: None,
        };
        assert(data.parameter_seq() =~= parameters@);
        data
    }

    /// The twelve inputs, in column order.
    pub fn parameters(&self) -> (parameters: [u64; 12])
        ensures
            parameters@ == self.parameter_seq(),
    {
        let parameters = [
            self.tip_b,
            self.root_b,
            self.span_b,
            self.sweep_b,
            self.body_length_b,
            self.tip_s,
            self.root_s,
            self.span_s,
            self.sweep_s,
            self.body_length_s,
            self.body_diameter_bs,
            self.mach_number,
        ];
        assert(parameters@ =~= self.parameter_seq());
        parameters
    }

    /// The same inputs with no result.
    pub fn without_results(self) -> (data: Data)
        ensures
            data == self.cleared(),
    {
        Data { power_on_bs: None, power_off_bs: None, power_on_s: None, power_off_s: None, ..self }
    }

    /// The same inputs with the given results.
    pub fn with_results(self, results: OptionalData) -> (data: Data)
        ensures
            data == self.solved_with(results),
    {
        Data {
            power_on_bs: Some(results.power_on_bs),
            power_off_bs: Some(results.power_off_bs),
            power_on_s: Some(results.power_on_s),
            power_off_s: Some(results.power_off_s),
            ..self
        }
    }

    /// The results, where all four are present; `None` where any is absent.
    pub fn results(&self) -> (results: Option<OptionalData>)
        ensures
            results == self.result_values(),
    {
        match (self.power_on_bs, self.power_off_bs, self.power_on_s, self.power_off_s) {
            (Some(power_on_bs), Some(power_off_bs), Some(power_on_s), Some(power_off_s)) => Some(
                OptionalData { power_on_bs, power_off_bs, power_on_s, power_off_s },
            ),
            _ => None,
        }
    }
}

/// A record is determined by its inputs and its results: two records with the
/// same inputs and without results are the same record.
pub proof fn lemma_parameters_determine(a: Data, b: Data)
    requires
        a.parameter_seq() == b.parameter_seq(),
    ensures
        a.cleared() == b.cleared(),
{
    let s = a.parameter_seq();
    let t = b.parameter_seq();
    assert(s[0] == t[0] && s[1] == t[1] && s[2] == t[2] && s[3] == t[3]);
    assert(s[4] == t[4] && s[5] == t[5] && s[6] == t[6] && s[7] == t[7]);
    assert(s[8] == t[8] && s[9] == t[9] && s[10] == t[10] && s[11] == t[11]);
}

} // verus!
