use neural::nn::connection::Connection;
use neural::nn::math::Numeric;
use neural::nn::network::Network;
use neural::nn::neuron::Neuron;

/// Single-precision scalar.
#[derive(Clone, Copy, Debug, PartialEq, PartialOrd)]
struct Real(f32);

impl Numeric for Real {
    fn zero_spec() -> Self {
        Self::zero()
    }

    fn one_spec() -> Self {
        Self::one()
    }

    fn plus_spec(self, rhs: Self) -> Self {
        self.plus(rhs)
    }

    fn minus_spec(self, rhs: Self) -> Self {
        self.minus(rhs)
    }

    fn times_spec(self, rhs: Self) -> Self {
        self.times(rhs)
    }

    fn sigmoid_spec(self) -> Self {
        self.sigmoid()
    }

    fn zero() -> Self {
        Real(0.0)
    }

    fn one() -> Self {
        Real(1.0)
    }

    fn plus(self, rhs: Self) -> Self {
        Real(self.0 + rhs.0)
    }

    fn minus(self, rhs: Self) -> Self {
        Real(self.0 - rhs.0)
    }

    fn times(self, rhs: Self) -> Self {
        Real(self.0 * rhs.0)
    }

    fn sigmoid(&self) -> Self {
        Real(1.0 / (1.0 + std::f32::consts::E.powf(self.0 * -1.0)))
    }
}

fn neuron(value: f32, bias: f32, stale: bool) -> Neuron<Real> {
    Neuron { value: Real(value), bias: Real(bias), stale, ..Neuron::default() }
}

fn connect(network: &mut Network<Real>, input: usize, output: usize, weight: f32) -> usize {
    network
        .add_connection(Connection { input, output, weight: Real(weight) })
        .unwrap()
}

#[test]
fn stalefn_makesoutputneuron_stale() {
    let mut network: Network<Real> = Network::new();
    let input = network.add_neuron(Neuron::default());
    let output = network.add_neuron(Neuron { stale: false, ..Neuron::default() });
    let connection = network
        .add_connection(Connection { input, output, ..Connection::default() })
        .unwrap();

    Connection::stale(&mut network, connection);
    assert_eq!(
        network.neurons[network.connections[connection].output].stale,
        true,
        "Connection.stale() did not make output neuron stale."
    );
}

#[test]
fn calculatefn_withdefaultweight_returnsinputvalue() {
    let mut network: Network<Real> = Network::new();
    let input = network.add_neuron(Neuron {
        stale: false,
        value: Real(5.0),
        ..Neuron::default()
    });
    let output = network.add_neuron(Neuron::default());
    let connection = network
        .add_connection(Connection { input, output, ..Connection::default() })
        .unwrap();

    assert_eq!(
        Connection::calculate(&mut network, connection),
        Real(5.0),
        "Connection.calculate() with default weight did not return neuron value."
    );
}

#[test]
fn calculatefn_withweight_returnsweightedvalue() {
    let mut network: Network<Real> = Network::new();
    let input = network.add_neuron(Neuron {
        stale: false,
        value: Real(5.0),
        ..Neuron::default()
    });
    let output = network.add_neuron(Neuron::default());
    let connection = network
        .add_connection(Connection { input, output, weight: Real(2.0) })
        .unwrap();

    assert_eq!(
        Connection::calculate(&mut network, connection),
        Real(10.0),
        "Connection.calculate() with weight did not return weighted value."
    );
}

#[test]
fn zerosigmoid_isequalto_pointfive() {
    let value = Real(0.0);
    let expected = Real(0.5);
    assert_eq!(value.sigmoid(), expected, "sigmoid(0.0) != 0.5");
}

#[test]
fn positivesigmoid_isgreaterthan_negativesigmoid() {
    let postive = Real(10.0);
    let negative = Real(-10.0);
    assert!(postive.sigmoid() > negative.sigmoid(), "sigmoid(+N) <= sigmoid(-N)");
}

#[test]
fn stalefn_makesneuron_stale() {
    let mut network: Network<Real> = Network::new();
    let id = network.add_neuron(Neuron { stale: false, ..Neuron::default() });
    Neuron::stale(&mut network, id);
    assert_eq!(network.neurons[id].stale, true, "Neuron.stale() did not make neuron stale.");
}

#[test]
fn calculatefn_returnsexistingvaluefrom_freshneuron() {
    let mut network: Network<Real> = Network::new();
    let id = network.add_neuron(Neuron { value: Real(5.0), ..Neuron::default() });
    assert_eq!(
        Neuron::calculate(&mut network, id),
        Real(5.0),
        "Neuron.calculate() did not return fresh value."
    );
}

#[test]
fn calculatefn_returnsdefaultvaluefrom_staleneuronwithnoinputs() {
    let mut network: Network<Real> = Network::new();
    let id = network.add_neuron(Neuron { stale: true, value: Real(5.0), ..Neuron::default() });
    assert_eq!(
        Neuron::calculate(&mut network, id),
        Real(0.5),
        "Neuron.calculate() with no inputs did not return default value."
    );
}

#[test]
fn default_neuron_is_fresh_zero_and_unconnected() {
    let neuron: Neuron<Real> = Neuron::default();
    assert_eq!(neuron.value, Real(0.0));
    assert_eq!(neuron.bias, Real(0.0));
    assert!(!neuron.stale);
    assert!(neuron.inputs.is_empty());
    assert!(neuron.outputs.is_empty());
}

#[test]
fn default_connection_has_weight_one() {
    let connection: Connection<Real> = Connection::default();
    assert_eq!(connection.input, 0);
    assert_eq!(connection.output, 0);
    assert_eq!(connection.weight, Real(1.0));
}

#[test]
fn new_network_is_empty() {
    let network: Network<Real> = Network::new();
    assert!(network.neurons.is_empty());
    assert!(network.connections.is_empty());
}

#[test]
fn add_neuron_numbers_neurons_in_order_and_drops_wiring() {
    let mut network: Network<Real> = Network::new();
    let wired = Neuron {
        inputs: vec![7],
        outputs: vec![8, 9],
        value: Real(3.0),
        bias: Real(4.0),
        stale: true,
    };
    assert_eq!(network.add_neuron(Neuron::default()), 0);
    assert_eq!(network.add_neuron(wired), 1);
    assert_eq!(network.neurons.len(), 2);
    assert!(network.neurons[1].inputs.is_empty());
    assert!(network.neurons[1].outputs.is_empty());
    assert_eq!(network.neurons[1].value, Real(3.0));
    assert_eq!(network.neurons[1].bias, Real(4.0));
    assert!(network.neurons[1].stale);
}

#[test]
fn add_connection_wires_both_ends() {
    let mut network: Network<Real> = Network::new();
    let a = network.add_neuron(neuron(0.0, 0.0, false));
    let b = network.add_neuron(neuron(0.0, 0.0, false));
    let first = network.add_connection(Connection { input: a, output: b, weight: Real(2.0) });
    let second = network.add_connection(Connection { input: a, output: b, weight: Real(3.0) });
    assert_eq!(first, Some(0));
    assert_eq!(second, Some(1));
    assert_eq!(network.neurons[a].outputs, vec![0, 1]);
    assert_eq!(network.neurons[b].inputs, vec![0, 1]);
    assert!(network.neurons[a].inputs.is_empty());
    assert!(network.neurons[b].outputs.is_empty());
    assert_eq!(network.connections[1].input, a);
    assert_eq!(network.connections[1].output, b);
    assert_eq!(network.connections[1].weight, Real(3.0));
}

#[test]
fn add_connection_refuses_missing_neurons() {
    let mut network: Network<Real> = Network::new();
    let a = network.add_neuron(neuron(0.0, 0.0, false));
    assert_eq!(network.add_connection(Connection { input: a, output: 1, weight: Real(1.0) }), None);
    assert_eq!(network.add_connection(Connection { input: 1, output: a, weight: Real(1.0) }), None);
    assert!(network.connections.is_empty());
    assert!(network.neurons[a].inputs.is_empty());
    assert!(network.neurons[a].outputs.is_empty());
}

#[test]
fn add_connection_refuses_cycles() {
    let mut network: Network<Real> = Network::new();
    let a = network.add_neuron(neuron(0.0, 0.0, false));
    let b = network.add_neuron(neuron(0.0, 0.0, false));
    let c = network.add_neuron(neuron(0.0, 0.0, false));
    connect(&mut network, a, b, 1.0);
    connect(&mut network, b, c, 1.0);
    assert_eq!(network.add_connection(Connection { input: a, output: a, weight: Real(1.0) }), None);
    assert_eq!(network.add_connection(Connection { input: b, output: a, weight: Real(1.0) }), None);
    assert_eq!(network.add_connection(Connection { input: c, output: a, weight: Real(1.0) }), None);
    assert_eq!(network.connections.len(), 2);
    assert_eq!(network.neurons[a].inputs, Vec::<usize>::new());
    assert_eq!(network.neurons[c].outputs, Vec::<usize>::new());
    assert_eq!(
        network.add_connection(Connection { input: a, output: c, weight: Real(1.0) }),
        Some(2)
    );
}

#[test]
fn add_connection_refuses_default_connection() {
    let mut network: Network<Real> = Network::new();
    network.add_neuron(Neuron::default());
    assert_eq!(network.add_connection(Connection::default()), None);
}

#[test]
fn reaches_follows_outgoing_connections() {
    let mut network: Network<Real> = Network::new();
    let top = network.add_neuron(neuron(0.0, 0.0, false));
    let left = network.add_neuron(neuron(0.0, 0.0, false));
    let right = network.add_neuron(neuron(0.0, 0.0, false));
    let bottom = network.add_neuron(neuron(0.0, 0.0, false));
    let aside = network.add_neuron(neuron(0.0, 0.0, false));
    connect(&mut network, top, left, 1.0);
    connect(&mut network, top, right, 1.0);
    connect(&mut network, left, bottom, 1.0);
    connect(&mut network, right, bottom, 1.0);
    assert!(network.reaches(top, top));
    assert!(network.reaches(top, left));
    assert!(network.reaches(top, bottom));
    assert!(network.reaches(right, bottom));
    assert!(!network.reaches(bottom, top));
    assert!(!network.reaches(left, right));
    assert!(!network.reaches(top, aside));
    assert!(!network.reaches(aside, bottom));
}

#[test]
fn fresh_read_changes_nothing() {
    let mut network: Network<Real> = Network::new();
    let id = network.add_neuron(neuron(5.0, 3.0, false));
    assert_eq!(Neuron::calculate(&mut network, id), Real(5.0));
    assert_eq!(network.neurons[id].value, Real(5.0));
    assert_eq!(network.neurons[id].bias, Real(3.0));
    assert!(!network.neurons[id].stale);
}

#[test]
fn stale_read_without_inputs_is_sigmoid_of_negated_bias() {
    let mut network: Network<Real> = Network::new();
    let id = network.add_neuron(neuron(5.0, 2.0, true));
    let expected = Real(-2.0).sigmoid();
    assert_eq!(Neuron::calculate(&mut network, id), expected);
    assert_eq!(network.neurons[id].value, expected);
    assert!(!network.neurons[id].stale);
}

#[test]
fn stale_read_sums_weighted_inputs_less_bias() {
    let mut network: Network<Real> = Network::new();
    let a = network.add_neuron(neuron(5.0, 0.0, false));
    let b = network.add_neuron(neuron(3.0, 0.0, false));
    let out = network.add_neuron(neuron(9.0, 13.0, true));
    connect(&mut network, a, out, 2.0);
    connect(&mut network, b, out, 1.0);
    // 5 * 2 + 3 * 1 - 13 = 0
    assert_eq!(Neuron::calculate(&mut network, out), Real(0.5));
    assert_eq!(network.neurons[out].value, Real(0.5));
    assert!(!network.neurons[out].stale);
    assert_eq!(network.neurons[a].value, Real(5.0));
    assert_eq!(network.neurons[b].value, Real(3.0));
}

#[test]
fn second_read_returns_cached_value_without_recomputing() {
    let mut network: Network<Real> = Network::new();
    let a = network.add_neuron(neuron(0.0, 0.0, false));
    let b = network.add_neuron(neuron(7.0, 0.0, true));
    connect(&mut network, a, b, 1.0);
    assert_eq!(Neuron::calculate(&mut network, b), Real(0.5));
    // A change that nobody announced is not seen: the value is cached.
    network.neurons[a].value = Real(100.0);
    assert_eq!(Neuron::calculate(&mut network, b), Real(0.5));
    assert_eq!(network.neurons[b].value, Real(0.5));
    assert!(!network.neurons[b].stale);
}

#[test]
fn chain_is_recomputed_in_dependency_order() {
    let mut network: Network<Real> = Network::new();
    let n1 = network.add_neuron(neuron(0.0, 0.0, false));
    let n2 = network.add_neuron(neuron(7.0, 0.0, true));
    let n3 = network.add_neuron(neuron(7.0, 1.0, true));
    connect(&mut network, n1, n2, 1.0);
    connect(&mut network, n2, n3, 2.0);
    // n2 = sigmoid(0 * 1 - 0) = 0.5, then n3 = sigmoid(0.5 * 2 - 1) = 0.5
    assert_eq!(Neuron::calculate(&mut network, n3), Real(0.5));
    assert_eq!(network.neurons[n1].value, Real(0.0));
    assert_eq!(network.neurons[n2].value, Real(0.5));
    assert_eq!(network.neurons[n3].value, Real(0.5));
    assert!(!network.neurons[n2].stale);
    assert!(!network.neurons[n3].stale);
}

#[test]
fn chain_after_new_input_is_recomputed_from_it() {
    let mut network: Network<Real> = Network::new();
    let n1 = network.add_neuron(neuron(0.0, 0.0, false));
    let n2 = network.add_neuron(neuron(0.0, 0.0, true));
    let n3 = network.add_neuron(neuron(0.0, 0.0, true));
    let first = connect(&mut network, n1, n2, 1.0);
    connect(&mut network, n2, n3, 1.0);
    let before = Neuron::calculate(&mut network, n3);
    assert_eq!(before, Real(0.5).sigmoid());

    network.neurons[n1].value = Real(4.0);
    Connection::stale(&mut network, first);
    assert!(!network.neurons[n1].stale);
    assert!(network.neurons[n2].stale);
    assert!(network.neurons[n3].stale);

    let after = Neuron::calculate(&mut network, n3);
    assert_eq!(network.neurons[n1].value, Real(4.0));
    assert_eq!(network.neurons[n2].value, Real(4.0).sigmoid());
    assert_eq!(after, Real(4.0).sigmoid().sigmoid());
    assert!(after > before);
}

#[test]
fn chain_of_stale_neurons_is_recomputed_from_the_first() {
    let mut network: Network<Real> = Network::new();
    let n1 = network.add_neuron(neuron(9.0, 0.0, false));
    let n2 = network.add_neuron(neuron(9.0, 0.5, false));
    let n3 = network.add_neuron(neuron(9.0, 1.0, false));
    connect(&mut network, n1, n2, 1.0);
    connect(&mut network, n2, n3, 2.0);
    Neuron::stale(&mut network, n1);
    assert!(network.neurons[n1].stale);
    assert!(network.neurons[n2].stale);
    assert!(network.neurons[n3].stale);
    // n1 = sigmoid(-0) = 0.5, n2 = sigmoid(0.5 - 0.5) = 0.5, n3 = sigmoid(1 - 1) = 0.5
    assert_eq!(Neuron::calculate(&mut network, n3), Real(0.5));
    assert_eq!(network.neurons[n1].value, Real(0.5));
    assert_eq!(network.neurons[n2].value, Real(0.5));
    assert!(!network.neurons[n1].stale);
    assert!(!network.neurons[n2].stale);
    assert!(!network.neurons[n3].stale);
}

#[test]
fn read_recomputes_only_what_it_depends_on() {
    let mut network: Network<Real> = Network::new();
    let a = network.add_neuron(neuron(1.0, 0.0, false));
    let left = network.add_neuron(neuron(8.0, 1.0, true));
    let right = network.add_neuron(neuron(8.0, 1.0, true));
    connect(&mut network, a, left, 1.0);
    connect(&mut network, a, right, 1.0);
    assert_eq!(Neuron::calculate(&mut network, left), Real(0.5));
    assert!(!network.neurons[left].stale);
    assert!(network.neurons[right].stale);
    assert_eq!(network.neurons[right].value, Real(8.0));
}

#[test]
fn read_stops_at_fresh_neurons() {
    let mut network: Network<Real> = Network::new();
    let a = network.add_neuron(neuron(8.0, 0.0, true));
    let b = network.add_neuron(neuron(0.0, 0.0, false));
    let c = network.add_neuron(neuron(8.0, 0.0, true));
    connect(&mut network, a, b, 1.0);
    connect(&mut network, b, c, 1.0);
    assert_eq!(Neuron::calculate(&mut network, c), Real(0.5));
    assert!(network.neurons[a].stale);
    assert_eq!(network.neurons[a].value, Real(8.0));
    assert_eq!(network.neurons[b].value, Real(0.0));
}

#[test]
fn diamond_reads_shared_neuron_once() {
    let mut network: Network<Real> = Network::new();
    let top = network.add_neuron(neuron(8.0, 0.0, true));
    let left = network.add_neuron(neuron(8.0, 0.5, true));
    let right = network.add_neuron(neuron(8.0, 1.0, true));
    let bottom = network.add_neuron(neuron(8.0, 1.0, true));
    connect(&mut network, top, left, 1.0);
    connect(&mut network, top, right, 2.0);
    connect(&mut network, left, bottom, 1.0);
    connect(&mut network, right, bottom, 1.0);
    // top = 0.5, left = sigmoid(0.5 - 0.5), right = sigmoid(1 - 1), bottom = sigmoid(1 - 1)
    assert_eq!(Neuron::calculate(&mut network, bottom), Real(0.5));
    assert_eq!(network.neurons[top].value, Real(0.5));
    assert_eq!(network.neurons[left].value, Real(0.5));
    assert_eq!(network.neurons[right].value, Real(0.5));
    for id in [top, left, right, bottom] {
        assert!(!network.neurons[id].stale);
    }
}

#[test]
fn stale_sweeps_downstream_only_and_keeps_values() {
    let mut network: Network<Real> = Network::new();
    let up = network.add_neuron(neuron(1.0, 0.0, false));
    let mid = network.add_neuron(neuron(2.0, 0.0, false));
    let down = network.add_neuron(neuron(3.0, 0.0, false));
    let aside = network.add_neuron(neuron(4.0, 0.0, false));
    connect(&mut network, up, mid, 1.0);
    connect(&mut network, mid, down, 1.0);
    connect(&mut network, up, aside, 1.0);
    Neuron::stale(&mut network, mid);
    assert!(!network.neurons[up].stale);
    assert!(network.neurons[mid].stale);
    assert!(network.neurons[down].stale);
    assert!(!network.neurons[aside].stale);
    assert_eq!(network.neurons[mid].value, Real(2.0));
    assert_eq!(network.neurons[down].value, Real(3.0));
}

#[test]
fn stale_is_idempotent() {
    let mut network: Network<Real> = Network::new();
    let a = network.add_neuron(neuron(1.0, 0.0, true));
    let b = network.add_neuron(neuron(2.0, 0.0, false));
    connect(&mut network, a, b, 1.0);
    Neuron::stale(&mut network, a);
    Neuron::stale(&mut network, a);
    assert!(network.neurons[a].stale);
    assert!(network.neurons[b].stale);
}

#[test]
fn stale_passes_through_stale_neurons() {
    let mut network: Network<Real> = Network::new();
    let a = network.add_neuron(neuron(1.0, 0.0, false));
    let b = network.add_neuron(neuron(2.0, 0.0, true));
    let c = network.add_neuron(neuron(3.0, 0.0, false));
    connect(&mut network, a, b, 1.0);
    connect(&mut network, b, c, 1.0);
    Neuron::stale(&mut network, a);
    assert!(network.neurons[c].stale);
}

#[test]
fn connection_stale_spares_its_input() {
    let mut network: Network<Real> = Network::new();
    let a = network.add_neuron(neuron(1.0, 0.0, false));
    let b = network.add_neuron(neuron(2.0, 0.0, false));
    let c = network.add_neuron(neuron(3.0, 0.0, false));
    let first = connect(&mut network, a, b, 1.0);
    connect(&mut network, b, c, 1.0);
    Connection::stale(&mut network, first);
    assert!(!network.neurons[a].stale);
    assert!(network.neurons[b].stale);
    assert!(network.neurons[c].stale);
}

#[test]
fn connection_calculate_recomputes_stale_input() {
    let mut network: Network<Real> = Network::new();
    let a = network.add_neuron(neuron(9.0, 0.0, true));
    let b = network.add_neuron(neuron(9.0, 0.0, true));
    let c = connect(&mut network, a, b, 4.0);
    assert_eq!(Connection::calculate(&mut network, c), Real(2.0));
    assert_eq!(network.neurons[a].value, Real(0.5));
    assert!(!network.neurons[a].stale);
    assert!(network.neurons[b].stale);
    assert_eq!(network.neurons[b].value, Real(9.0));
}

#[test]
fn sigmoid_lies_between_zero_and_one() {
    for x in [-5.0f32, -1.0, -0.5, 0.0, 0.5, 1.0, 5.0] {
        let y = Real(x).sigmoid();
        assert!(y > Real(0.0) && y < Real(1.0));
    }
    assert!(Real(1.0).sigmoid() > Real(0.5).sigmoid());
    assert!(Real(-0.5).sigmoid() > Real(-1.0).sigmoid());
}
