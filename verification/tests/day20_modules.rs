use advent::day20::BroadcastModule;
use advent::day20::ConjunctionModule;
use advent::day20::FlipFlopModule;
use advent::day20::ModuleType;
use advent::day20::Signal;
use advent::day20::parse_module_name;
use advent::day20::parse_module_type;
use advent::day20::parse_receivers;

#[test]
fn broadcast_module_sends_signals() {
    let mut broadcast_module = BroadcastModule {
        name: "broadcast".to_string(),
        receivers: vec!["a".to_string(), "b".to_string()],
    };
    let signals = broadcast_module.receive(Signal {
        sender: "button".to_string(),
        receiver: "broadcast".to_string(),
        pulse: true,
    });

    assert_eq!(
        signals,
        vec![
            Signal { pulse: false, sender: "broadcast".to_string(), receiver: "a".to_string() },
            Signal { pulse: false, sender: "broadcast".to_string(), receiver: "b".to_string() }
        ]
    );
}

#[test]
fn flip_flop_module_does_not_send_on_high_signal() {
    let mut flip_flop_module = FlipFlopModule {
        name: "self".to_string(),
        receivers: vec!["a".to_string(), "b".to_string()],
        state: false,
    };
    let signals = flip_flop_module.receive(Signal {
        sender: "broadcast".to_string(),
        receiver: "self".to_string(),
        pulse: true,
    });

    assert_eq!(signals, vec![]);
}

#[test]
fn flip_flop_module_does_send_on_low_signal() {
    let mut flip_flop_module = FlipFlopModule {
        name: "ff".to_string(),
        receivers: vec!["a".to_string(), "b".to_string()],
        state: false,
    };
    let signals = flip_flop_module.receive(Signal {
        sender: "sender".to_string(),
        receiver: "ff".to_string(),
        pulse: false,
    });

    assert_eq!(
        signals,
        vec![
            Signal { pulse: true, sender: "ff".to_string(), receiver: "a".to_string() },
            Signal { pulse: true, sender: "ff".to_string(), receiver: "b".to_string() }
        ]
    );
}

#[test]
fn conjunction_module_is_inverter_with_single_input() {
    let mut conjunction_module = ConjunctionModule {
        name: "cm".to_string(),
        receivers: vec!["a".to_string(), "b".to_string()],
        state: Vec::new(),
    };
    // initialize state
    conjunction_module.add_sender("sender".to_string());

    // receive a message and generate signals
    let signals = conjunction_module.receive(Signal {
        sender: "sender".to_string(),
        receiver: "cm".to_string(),
        pulse: true,
    });

    assert_eq!(
        signals,
        vec![
            Signal { pulse: false, sender: "cm".to_string(), receiver: "a".to_string() },
            Signal { pulse: false, sender: "cm".to_string(), receiver: "b".to_string() }
        ]
    );
}

#[test]
fn conjuction_module_handles_multiple_senders() {
    let mut conjunction_module = ConjunctionModule {
        name: "cm".to_string(),
        receivers: vec!["a".to_string(), "b".to_string()],
        state: Vec::new(),
    };
    // initialize state
    conjunction_module.add_sender("alice".to_string());
    conjunction_module.add_sender("bob".to_string());

    // receive a message and generate signals
    let signals = conjunction_module.receive(Signal {
        sender: "alice".to_string(),
        receiver: "cm".to_string(),
        pulse: true,
    });
    assert_eq!(
        signals,
        vec![
            Signal { pulse: true, sender: "cm".to_string(), receiver: "a".to_string() },
            Signal { pulse: true, sender: "cm".to_string(), receiver: "b".to_string() }
        ]
    );

    let signals = conjunction_module.receive(Signal {
        sender: "bob".to_string(),
        receiver: "cm".to_string(),
        pulse: true,
    });
    assert_eq!(
        signals,
        vec![
            Signal { pulse: false, sender: "cm".to_string(), receiver: "a".to_string() },
            Signal { pulse: false, sender: "cm".to_string(), receiver: "b".to_string() }
        ]
    );
}

#[test]
fn parse_receivers_correctly() {
    let line = "broadcast -> ab, cd, ef";
    assert_eq!(parse_receivers(line), vec!["ab", "cd", "ef"]);
}

#[test]
fn parse_module_name_correctly() {
    let line = "broadcast -> ab, cd, ef";
    assert_eq!(parse_module_name(line), "broadcast".to_string());

    let line = "&ab -> cd, ef";
    assert_eq!(parse_module_name(line), "ab".to_string());

    let line = "%ab -> cd, ef";
    assert_eq!(parse_module_name(line), "ab".to_string());

    let line = "%a -> cd, ef";
    assert_eq!(parse_module_name(line), "a".to_string());
}

#[test]
fn parse_module_type_correctly() {
    let line = "broadcast -> ab, cd, ef";
    assert_eq!(parse_module_type(line), ModuleType::Broadcast);

    let line = "&ab -> cd, ef";
    assert_eq!(parse_module_type(line), ModuleType::Conjunction);

    let line = "%ab -> cd, ef";
    assert_eq!(parse_module_type(line), ModuleType::FlipFlop);
}

#[test]
fn flip_flop_toggles_back_on_second_low_pulse() {
    let mut ff = FlipFlopModule {
        name: "ff".to_string(),
        receivers: vec!["a".to_string()],
        state: false,
    };
    let first = ff.receive(Signal {
        sender: "s".to_string(),
        receiver: "ff".to_string(),
        pulse: false,
    });
    assert_eq!(first[0].pulse, true);
    let second = ff.receive(Signal {
        sender: "s".to_string(),
        receiver: "ff".to_string(),
        pulse: false,
    });
    assert_eq!(second[0].pulse, false);
}

#[test]
fn pulse_counts_multiply_over_a_thousand_presses() {
    let content =
        "broadcaster -> a, b, c\n%a -> b\n%b -> c\n%c -> inv\n&inv -> a".to_string();
    assert_eq!(advent::day20::solve_part1(content), 32000000);
}

#[test]
fn pulse_counts_with_an_output_module() {
    let content =
        "broadcaster -> a\n%a -> inv, con\n&inv -> b\n%b -> con\n&con -> output".to_string();
    assert_eq!(advent::day20::solve_part1(content), 11687500);
}

#[test]
fn first_low_pulse_to_rx_is_found() {
    let content = "broadcaster -> rx".to_string();
    assert_eq!(advent::day20::solve_part2(content), 1);
}
