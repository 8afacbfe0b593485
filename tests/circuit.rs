use zk_protocols::circuit::{Circuit, Gate, GateOp, Layer};
use zk_protocols::field::Fe;

fn fe(v: u64) -> Fe {
    Fe::from_u64(v)
}

#[test]
fn test_gate_creation() {
    let gate = Gate { left: 0, right: 1, op: GateOp::Add, output: 0 };
    assert_eq!(gate.left, 0);
    assert_eq!(gate.right, 1);
    assert_eq!(gate.op, GateOp::Add);
    assert_eq!(gate.output, 0);
}

#[test]
fn test_layer_creation() {
    let gate_1 = Gate { left: 0, right: 1, op: GateOp::Add, output: 0 };
    let gate_2 = Gate { left: 0, right: 1, op: GateOp::Mul, output: 1 };
    let layer = Layer { gates: vec![gate_1, gate_2] };

    assert_eq!(layer.gates.len(), 2);
    assert_eq!(layer.gates[0].op, GateOp::Add);
    assert_eq!(layer.gates[1].op, GateOp::Mul);
}

#[test]
fn gkr_protocol_test_evaluate() {
    let inputs = vec![fe(1), fe(2)];
    let mut circuit = Circuit::new(inputs);
    let layer = Layer {
        gates: vec![
            Gate { left: 0, right: 1, op: GateOp::Add, output: 0 },
            Gate { left: 0, right: 1, op: GateOp::Mul, output: 1 },
        ],
    };
    circuit.add_layer(layer);
    let result = circuit.evaluate();
    assert_eq!(result, vec![fe(3), fe(2)]);
}

#[test]
fn gkr_protocol_test_evaluate_2() {
    let inputs = vec![fe(1), fe(2), fe(3), fe(4)];
    let mut circuit = Circuit::new(inputs);
    let layer_1 = Layer {
        gates: vec![
            Gate { left: 0, right: 1, op: GateOp::Add, output: 0 },
            Gate { left: 2, right: 3, op: GateOp::Mul, output: 1 },
        ],
    };
    let layer_2 = Layer { gates: vec![Gate { left: 0, right: 1, op: GateOp::Add, output: 0 }] };
    circuit.add_layer(layer_1);
    circuit.add_layer(layer_2);
    let result = circuit.evaluate();
    assert_eq!(result, vec![fe(15)]);
}
