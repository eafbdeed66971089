use hotshot_new_protocol::stat::{
    core_delta, cpu_delta, net_delta, parse_proc_net_dev, parse_proc_stat_cores, parse_stat, ticks_to_us, CoreTicks,
};

#[test]
fn parses_stat_with_spaces_in_comm() {
    // The command name can hold spaces and parentheses.
    let line = "1234 ((my proc (foo))) S 1 1 1 0 -1 4194304 100 200 0 0 1500 750 0 0 20 0 8 0 \
                1234 0 0";
    let (u, s) = parse_stat(line).expect("parse");
    assert_eq!(u, 1500);
    assert_eq!(s, 750);
}

#[test]
fn a_line_without_a_closing_parenthesis_does_not_parse() {
    assert_eq!(parse_stat("1234 my proc S 1 1 1 0 -1 4194304 100 200 0 0 1500 750"), None);
}

#[test]
fn a_short_line_does_not_parse() {
    assert_eq!(parse_stat("1 (a) S 1 1 1 0 -1 4194304 100 200 0 0 1500"), None);
    assert_eq!(parse_stat("1 (a) S"), None);
    assert_eq!(parse_stat(""), None);
}

#[test]
fn fields_that_are_not_numbers_do_not_parse() {
    assert_eq!(parse_stat("1 (a) S 1 1 1 0 -1 4194304 100 200 0 0 x 750 0"), None);
    assert_eq!(parse_stat("1 (a) S 1 1 1 0 -1 4194304 100 200 0 0 15 -7 0"), None);
    assert_eq!(parse_stat("1 (a) S 1 1 1 0 -1 4194304 100 200 0 0 + 7 0"), None);
}

#[test]
fn a_leading_plus_and_any_unicode_whitespace_are_accepted() {
    assert_eq!(parse_stat("1 (a) S 1 1 1 0 -1 4194304 100 200 0 0 +15 7"), Some((15, 7)));
    assert_eq!(
        parse_stat("1 (a)\tS\u{3000}1 1 1 0 -1 4194304 100 200 0\u{a0}0 15\n7"),
        Some((15, 7))
    );
}

#[test]
fn a_value_past_u64_does_not_parse() {
    assert_eq!(
        parse_stat("1 (a) S 1 1 1 0 -1 4194304 100 200 0 0 18446744073709551615 0"),
        Some((u64::MAX, 0))
    );
    assert_eq!(parse_stat("1 (a) S 1 1 1 0 -1 4194304 100 200 0 0 18446744073709551616 0"), None);
}

#[test]
fn ticks_convert_to_microseconds() {
    assert_eq!(ticks_to_us(150, 100), 1_500_000);
    assert_eq!(ticks_to_us(7, 0), 7_000_000);
    assert_eq!(ticks_to_us(u64::MAX, 1), u64::MAX);
    assert_eq!(ticks_to_us(u64::MAX, 1_000_000), u64::MAX / 1_000_000);
}

#[test]
fn core_ticks_total_adds_every_kind() {
    let t = CoreTicks { user: 1, nice: 2, system: 3, idle: 4, iowait: 5, irq: 6, softirq: 7, steal: 8 };
    assert_eq!(t.total(), 36);
}

#[test]
fn parses_proc_stat_cores_sample() {
    let text = "cpu  10 20 30 40 50 60 70 80 0 0\n\
                cpu0 1 2 3 4 5 6 7 8 0 0\r\n\
                cpu1 9 9 9 9 9 9 9\n\
                intr 1 2 3\n\
                cpu2 +11 12 x 13 14 15 16 17 18\n";
    let cores = parse_proc_stat_cores(text).expect("parse");
    assert_eq!(cores.len(), 2);
    assert_eq!(cores[0].0, 0);
    assert_eq!(cores[0].1.steal, 8);
    assert_eq!(cores[0].1.total(), 36);
    assert_eq!(cores[1].0, 2);
    assert_eq!(cores[1].1.user, 11);
    assert_eq!(cores[1].1.nice, 12);
    assert_eq!(cores[1].1.system, 13, "a field that is not a number is passed over");
    assert_eq!(cores[1].1.steal, 18);
}

#[test]
fn a_core_with_a_bad_number_spoils_the_reading() {
    assert!(parse_proc_stat_cores("cpu0 1 2 3 4 5 6 7 8\ncpux 1 2 3 4 5 6 7 8\n").is_none());
    assert!(parse_proc_stat_cores("cpu99999999999 1 2 3 4 5 6 7 8\n").is_none());
    assert_eq!(parse_proc_stat_cores("").expect("empty").len(), 0);
}

#[test]
fn parses_proc_net_dev_sample() {
    let text = "Inter-|   Receive                                                |  Transmit\n \
face |bytes    packets errs drop fifo frame compressed multicast|bytes    packets errs drop fifo colls carrier compressed\n    \
lo: 100 1 0 0 0 0 0 0 100 1 0 0 0 0 0 0\n  \
ens5: 1234567890 9876543 0 0 0 0 0 0 87654321098 1234567 0 0 0 0 0 0\n  \
eth1: 5 6 7\n";
    let ifs = parse_proc_net_dev(text).expect("parse");
    assert_eq!(ifs.len(), 1);
    assert_eq!(ifs[0].0, "ens5");
    assert_eq!(ifs[0].1, 1234567890);
    assert_eq!(ifs[0].2, 87654321098);
    for (iface, _, _) in &ifs {
        assert_ne!(iface, "lo");
    }
    assert!(parse_proc_net_dev("a\nb\nno colon here\n").is_none());
    assert_eq!(parse_proc_net_dev("only one header\n").expect("nothing after the headers").len(), 0);
}

#[test]
fn deltas_between_readings() {
    assert_eq!(cpu_delta((100, 50), (250, 40), 100), (1_500_000, 0));
    assert_eq!(net_delta((10, 10), (10, 10)), None);
    assert_eq!(net_delta((10, 10), (15, 9)), Some((5, 0)));
    let prev = CoreTicks { user: 1, nice: 0, system: 1, idle: 1, iowait: 0, irq: 0, softirq: 0, steal: 0 };
    let cur = CoreTicks { user: 3, nice: 0, system: 2, idle: 4, iowait: 1, irq: 0, softirq: 0, steal: 0 };
    assert_eq!(core_delta(prev, cur), Some((7, 2, 1, 1, 3)));
    assert_eq!(core_delta(cur, cur), None);
}
