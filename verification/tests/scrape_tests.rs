use prometheus_radiator_exporter::assembly::{assemble, check_labels, with_identifier, PerObjectStats};
use prometheus_radiator_exporter::codec::{decode_stats, Stats};
use prometheus_radiator_exporter::config::{
    check, Config, MetricConfig, PerObjectMetricConfig, RadiatorConfig, SampleConfig, WwwConfig,
};
use prometheus_radiator_exporter::openmetrics::{Labels, MetricKind, MIME_TYPE};
use prometheus_radiator_exporter::radiator::Error;
use prometheus_radiator_exporter::scrape::{
    encode, is_no_such_object, return_405, return_500, HttpReply, Scrape, Stage, Step,
};

fn scrape_labels(pairs: &[(&str, &str)]) -> Labels {
    let mut map = Labels::new();
    for (key, value) in pairs {
        map.insert(key.to_string(), value.to_string());
    }
    map
}

fn scrape_sample(statistic: &str, pairs: &[(&str, &str)]) -> SampleConfig {
    SampleConfig { labels: scrape_labels(pairs), statistic: statistic.to_string() }
}

fn scrape_metric(name: &str, kind: MetricKind, samples: Vec<SampleConfig>) -> MetricConfig {
    MetricConfig { metric: name.to_string(), kind, help: None, unit: None, samples }
}

fn scrape_config(metrics: Vec<MetricConfig>, groups: Vec<PerObjectMetricConfig>) -> Config {
    let config = Config {
        www: WwwConfig { bind_address: "::".to_string(), port: 10014 },
        radiator: RadiatorConfig {
            target: "127.0.0.1".to_string(),
            mgmt_port: 9048,
            username: "u".to_string(),
            password: "p".to_string(),
        },
        metrics,
        per_object_metrics: groups,
    };
    assert_eq!(check(&config), Ok(()));
    assert!(check_labels(&config));
    config
}

fn port_config() -> Config {
    let mut requests = scrape_metric(
        "radiator_requests",
        MetricKind::Counter,
        vec![
            scrape_sample("Access requests", &[("kind", "access")]),
            scrape_sample("Accounting requests", &[("kind", "accounting")]),
            scrape_sample("Missing", &[("kind", "missing")]),
        ],
    );
    requests.help = Some("Requests \"seen\"".to_string());
    requests.unit = Some("requests".to_string());
    let uptime = scrape_metric("radiator_load", MetricKind::Gauge, vec![scrape_sample("Load", &[])]);
    let port = PerObjectMetricConfig {
        kind: "Port".to_string(),
        identifier_label: "port".to_string(),
        metrics: vec![scrape_metric(
            "port_packets",
            MetricKind::Counter,
            vec![
                scrape_sample("In", &[("direction", "in")]),
                scrape_sample("Out", &[("direction", "out")]),
            ],
        )],
    };
    scrape_config(vec![requests, uptime], vec![port])
}

fn command_of(step: Step) -> String {
    match step {
        Step::Send(command) => String::from_utf8(command).unwrap(),
        other => panic!("{:?}", other),
    }
}

fn reply_of(step: Step) -> HttpReply {
    match step {
        Step::Reply(reply) => reply,
        other => panic!("{:?}", other),
    }
}

fn answer(text: &str) -> Result<Vec<u8>, Error> {
    Ok(text.as_bytes().to_vec())
}

fn is_500(reply: &HttpReply) -> bool {
    reply.status == 500
        && reply.content_type == "text/plain; charset=utf-8"
        && reply.allow.is_none()
        && reply.body == "internal server error"
}

#[test]
fn other_methods_than_get_are_not_allowed() {
    let config = port_config();
    for method in ["POST", "PUT", "HEAD", "DELETE", "get", "", "GET "] {
        let (scrape, step) = Scrape::handle_request(method, &config);
        let reply = reply_of(step);
        assert_eq!(reply.status, 405);
        assert_eq!(reply.allow.as_deref(), Some("GET"));
        assert_eq!(reply.content_type, "text/plain; charset=utf-8");
        assert_eq!(reply.body, "HTTP method must be GET");
        assert_eq!(scrape.stage(), Stage::Done);
    }
}

#[test]
fn fixed_replies() {
    assert!(is_500(&return_500()));
    let reply = return_405();
    assert_eq!(reply.status, 405);
    assert_eq!(reply.allow.as_deref(), Some("GET"));
}

#[test]
fn get_starts_with_the_global_statistics() {
    let config = port_config();
    let (scrape, step) = Scrape::handle_request("GET", &config);
    assert_eq!(command_of(step), "STATS .");
    assert_eq!(scrape.stage(), Stage::Global);
}

#[test]
fn enumeration_ends_at_no_such_object() {
    let config = port_config();
    let (mut scrape, _) = Scrape::handle_request("GET", &config);
    let step = scrape.on_answer(&config, answer("STATS .\nLoad:1"));
    assert_eq!(command_of(step), "DESCRIBE Port.0");
    assert_eq!(scrape.stage(), Stage::Describing { group: 0, index: 0 });
    let step = scrape.on_answer(&config, answer("DESCRIBE Port.0\nIdentifier:string:A"));
    assert_eq!(command_of(step), "DESCRIBE Port.1");
    let step = scrape.on_answer(&config, answer("DESCRIBE Port.1\nIdentifier:string:B"));
    assert_eq!(command_of(step), "DESCRIBE Port.2");
    let step = scrape.on_answer(&config, answer("NOSUCHOBJECT"));
    assert_eq!(command_of(step), "STATS Port.0");
    assert_eq!(scrape.stage(), Stage::Fetching { group: 0, object: 0 });
    let step = scrape.on_answer(&config, answer("STATS Port.0\nIn:1\u{1}Out:2"));
    assert_eq!(command_of(step), "STATS Port.1");
    let step = scrape.on_answer(&config, answer("STATS Port.1\nIn:3"));
    let reply = reply_of(step);
    assert_eq!(scrape.stage(), Stage::Done);
    assert_eq!(reply.status, 200);
    assert_eq!(reply.content_type, MIME_TYPE);
    assert!(reply.allow.is_none());
    assert_eq!(
        reply.body,
        "# TYPE port_packets counter\n\
         port_packets_total{direction=\"in\",port=\"A\"} 1\n\
         port_packets_total{direction=\"in\",port=\"B\"} 3\n\
         port_packets_total{direction=\"out\",port=\"A\"} 2\n\
         # TYPE radiator_load gauge\n\
         radiator_load 1\n\
         # TYPE radiator_requests counter\n\
         # UNIT radiator_requests requests\n\
         # HELP radiator_requests Requests \\\"seen\\\"\n\
         # EOF\n"
    );
}

#[test]
fn objects_without_identifier_are_passed_over() {
    let config = port_config();
    let (mut scrape, _) = Scrape::handle_request("GET", &config);
    scrape.on_answer(&config, answer("STATS .\nAccess requests:5\u{1}Accounting requests:2.5"));
    let step = scrape.on_answer(&config, answer("DESCRIBE Port.0\nName:string:x"));
    assert_eq!(command_of(step), "DESCRIBE Port.1");
    let step = scrape.on_answer(&config, answer("garbage without line feed"));
    assert_eq!(command_of(step), "DESCRIBE Port.2");
    let step = scrape.on_answer(&config, answer("DESCRIBE Port.2\nIdentifier:string:C"));
    assert_eq!(command_of(step), "DESCRIBE Port.3");
    let step = scrape.on_answer(&config, answer("NOSUCHOBJECT"));
    assert_eq!(command_of(step), "STATS Port.2");
    let reply = reply_of(scrape.on_answer(&config, answer("STATS Port.2\nOut:9")));
    assert_eq!(reply.status, 200);
    assert_eq!(
        reply.body,
        "# TYPE port_packets counter\n\
         port_packets_total{direction=\"out\",port=\"C\"} 9\n\
         # TYPE radiator_load gauge\n\
         # TYPE radiator_requests counter\n\
         # UNIT radiator_requests requests\n\
         # HELP radiator_requests Requests \\\"seen\\\"\n\
         radiator_requests_total{kind=\"access\"} 5\n\
         radiator_requests_total{kind=\"accounting\"} 2.5\n\
         # EOF\n"
    );
}

#[test]
fn kind_without_objects() {
    let config = port_config();
    let (mut scrape, _) = Scrape::handle_request("GET", &config);
    scrape.on_answer(&config, answer("STATS .\n"));
    let reply = reply_of(scrape.on_answer(&config, answer("NOSUCHOBJECT")));
    assert_eq!(reply.status, 200);
    assert_eq!(
        reply.body,
        "# TYPE port_packets counter\n\
         # TYPE radiator_load gauge\n\
         # TYPE radiator_requests counter\n\
         # UNIT radiator_requests requests\n\
         # HELP radiator_requests Requests \\\"seen\\\"\n\
         # EOF\n"
    );
}

#[test]
fn configuration_without_groups_replies_after_the_global_statistics() {
    let config = scrape_config(
        vec![scrape_metric("m", MetricKind::Gauge, vec![scrape_sample("S", &[])])],
        vec![],
    );
    let (mut scrape, _) = Scrape::handle_request("GET", &config);
    let reply = reply_of(scrape.on_answer(&config, answer("STATS .\nS:-4\u{1}T:1")));
    assert_eq!(reply.status, 200);
    assert_eq!(reply.body, "# TYPE m gauge\nm -4\n# EOF\n");
}

#[test]
fn two_kinds_are_enumerated_one_after_the_other() {
    let group = |kind: &str, metric: &str| PerObjectMetricConfig {
        kind: kind.to_string(),
        identifier_label: "id".to_string(),
        metrics: vec![scrape_metric(metric, MetricKind::Gauge, vec![scrape_sample("V", &[])])],
    };
    let config = scrape_config(vec![], vec![group("Port", "port_v"), group("Line", "line_v")]);
    let (mut scrape, _) = Scrape::handle_request("GET", &config);
    assert_eq!(command_of(scrape.on_answer(&config, answer("STATS .\n"))), "DESCRIBE Port.0");
    assert_eq!(
        command_of(scrape.on_answer(&config, answer("x\nIdentifier:string:first"))),
        "DESCRIBE Port.1"
    );
    assert_eq!(command_of(scrape.on_answer(&config, answer("NOSUCHOBJECT"))), "STATS Port.0");
    assert_eq!(command_of(scrape.on_answer(&config, answer("x\nV:1"))), "DESCRIBE Line.0");
    assert_eq!(scrape.stage(), Stage::Describing { group: 1, index: 0 });
    assert_eq!(
        command_of(scrape.on_answer(&config, answer("x\nIdentifier:string:line0"))),
        "DESCRIBE Line.1"
    );
    assert_eq!(command_of(scrape.on_answer(&config, answer("NOSUCHOBJECT"))), "STATS Line.0");
    let reply = reply_of(scrape.on_answer(&config, answer("x\nV:2")));
    assert_eq!(
        reply.body,
        "# TYPE line_v gauge\nline_v{id=\"line0\"} 2\n# TYPE port_v gauge\nport_v{id=\"first\"} 1\n# EOF\n"
    );
}

#[test]
fn failures_end_the_scrape_with_an_internal_error() {
    let config = port_config();
    let (mut scrape, _) = Scrape::handle_request("GET", &config);
    assert!(is_500(&reply_of(scrape.on_answer(&config, Err(Error::ReaderGone)))));
    assert_eq!(scrape.stage(), Stage::Done);

    let (mut scrape, _) = Scrape::handle_request("GET", &config);
    assert!(is_500(&reply_of(scrape.on_answer(&config, answer("no line feed")))));

    let (mut scrape, _) = Scrape::handle_request("GET", &config);
    scrape.on_answer(&config, answer("STATS .\n"));
    assert!(is_500(&reply_of(
        scrape.on_answer(&config, Err(Error::Io("reset".to_string())))
    )));

    let (mut scrape, _) = Scrape::handle_request("GET", &config);
    scrape.on_answer(&config, answer("STATS .\n"));
    scrape.on_answer(&config, answer("x\nIdentifier:string:A"));
    scrape.on_answer(&config, answer("NOSUCHOBJECT"));
    assert!(is_500(&reply_of(scrape.on_answer(&config, Ok(b"x\nIn:\xff".to_vec())))));
    assert_eq!(scrape.stage(), Stage::Done);
    assert!(is_500(&reply_of(scrape.on_answer(&config, answer("STATS .\n")))));
}

#[test]
fn assembly_of_a_registry() {
    let config = port_config();
    let statistics: Stats = decode_stats(b"STATS .\nLoad:0.5\x01Access requests:10").unwrap();
    let objects = vec![vec![
        PerObjectStats {
            index: 0,
            identifier: "eth\"0".to_string(),
            stats: decode_stats(b"x\nIn:7").unwrap(),
        },
        PerObjectStats {
            index: 3,
            identifier: "eth\"0".to_string(),
            stats: decode_stats(b"x\nIn:8\x01Out:1").unwrap(),
        },
    ]];
    let db = assemble(&config, &statistics, &objects);
    assert_eq!(db.len(), 3);
    assert_eq!(
        encode(&db),
        "# TYPE port_packets counter\n\
         port_packets_total{direction=\"in\",port=\"eth\\\"0\"} 8\n\
         port_packets_total{direction=\"out\",port=\"eth\\\"0\"} 1\n\
         # TYPE radiator_load gauge\n\
         radiator_load 0.5\n\
         # TYPE radiator_requests counter\n\
         # UNIT radiator_requests requests\n\
         # HELP radiator_requests Requests \\\"seen\\\"\n\
         radiator_requests_total{kind=\"access\"} 10\n\
         # EOF\n"
    );
}

#[test]
fn identifier_takes_the_place_of_a_literal_label_of_its_name() {
    let merged = with_identifier(&scrape_labels(&[("a", "1"), ("port", "literal")]), "port", "eth1");
    assert_eq!(merged.len(), 2);
    assert_eq!(merged.get("a").map(|s| s.as_str()), Some("1"));
    assert_eq!(merged.get("port").map(|s| s.as_str()), Some("eth1"));
    let merged = with_identifier(&scrape_labels(&[("z", "1")]), "id", "X");
    assert_eq!(merged.key_at(0), "id");
    assert_eq!(merged.key_at(1), "z");
}

#[test]
fn the_end_of_an_enumeration() {
    assert!(is_no_such_object(b"NOSUCHOBJECT"));
    assert!(is_no_such_object(b"DESCRIBE Port.2\nNOSUCHOBJECT"));
    assert!(is_no_such_object(b"\nNOSUCHOBJECT"));
    assert!(!is_no_such_object(b"NOSUCHOBJECT\n"));
    assert!(!is_no_such_object(b"NOSUCHOBJECT "));
    assert!(!is_no_such_object(b"nosuchobject"));
    assert!(!is_no_such_object(b"DESCRIBE Port.2\nNOSUCHOBJECT\n"));
    assert!(!is_no_such_object(b"DESCRIBE Port.2\nIdentifier:string:NOSUCHOBJECT"));
    assert!(!is_no_such_object(b""));
}

#[test]
fn enumeration_ends_at_an_echoed_no_such_object() {
    let config = port_config();
    let (mut scrape, _) = Scrape::handle_request("GET", &config);
    scrape.on_answer(&config, answer("STATS .\n"));
    let step = scrape.on_answer(&config, answer("DESCRIBE Port.0\nIdentifier:string:A"));
    assert_eq!(command_of(step), "DESCRIBE Port.1");
    let step = scrape.on_answer(&config, answer("DESCRIBE Port.1\nNOSUCHOBJECT"));
    assert_eq!(command_of(step), "STATS Port.0");
}

#[test]
fn commands_count_in_decimal() {
    let config = port_config();
    let (mut scrape, _) = Scrape::handle_request("GET", &config);
    scrape.on_answer(&config, answer("STATS .\n"));
    for i in 0..12 {
        let step = scrape.on_answer(&config, answer("x\nno identifier here"));
        assert_eq!(command_of(step), format!("DESCRIBE Port.{}", i + 1));
    }
    let step = scrape.on_answer(&config, answer("x\nIdentifier:string:twelve"));
    assert_eq!(command_of(step), "DESCRIBE Port.13");
    let step = scrape.on_answer(&config, answer("NOSUCHOBJECT"));
    assert_eq!(command_of(step), "STATS Port.12");
}
