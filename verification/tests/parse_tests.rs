use corosync_config_parser::error::{Error, ErrorType};
use corosync_config_parser::parse;

#[test]
fn test_parse_example_file() {
    let corosync_example = "
        logging {
            fileline: off
            to_stderr: no
            to_logfile: no
            logfile: /var/log/cluster/corosync.log
            to_syslog: yes
            debug: off
            timestamp: on
            logger_subsys {
                    subsys: QUORUM
                    debug: off
            }
        }
    "
    .to_string();

    let cfg = corosync_config_parser::parse(corosync_example).unwrap();
    assert_eq!(cfg.name(), "");
    assert_eq!(cfg.len(), 0);
    let subsys = cfg.matching("logging")[0]
        .matching("logger_subsys")[0]
        .matching("subsys")[0]
        .get(0);
    assert_eq!(subsys, "QUORUM");
}

#[test]
fn test_datapath_get() {
    let corosync_example = "
        logging {
            fileline: off
            to_stderr: no
            to_logfile: no
            logfile: /var/log/cluster/corosync.log
            to_syslog: yes
            debug: off
            timestamp: on
            logger_subsys {
                    subsys: QUORUM
                    debug: off
            }
        }
    "
    .to_string();

    let cfg = corosync_config_parser::parse(corosync_example).unwrap();
    let subsys = cfg.path(vec!["logging", "logger_subsys", "subsys"]);
    assert_eq!(subsys, Some("QUORUM"));
}

#[test]
fn parses_typical_nested_example() {
    let cfg = parse("option param { inner_option \"value\"; };".to_string()).unwrap();
    let options = cfg.matching("option");
    assert_eq!(options.len(), 1);
    let option = options[0];
    assert_eq!(option.name(), "option");
    assert_eq!(option.len(), 1);
    assert_eq!(option.get(0), "param");
    let inner = option.matching("inner_option");
    assert_eq!(inner.len(), 1);
    assert_eq!(inner[0].get(0), "value");
}

#[test]
fn path_with_non_matching_intermediate_name_is_none() {
    let cfg = parse("logging { logger_subsys { subsys: QUORUM\n } }".to_string()).unwrap();
    assert_eq!(cfg.path(vec!["logging", "no_such_subsys", "subsys"]), None);
    assert_eq!(cfg.path(vec!["nothing", "logger_subsys", "subsys"]), None);
}

#[test]
fn path_with_empty_name_list_is_none() {
    let cfg = parse("a { b: c\n }".to_string()).unwrap();
    assert_eq!(cfg.path(vec![]), None);
}

#[test]
fn path_to_leaf_without_params_is_none() {
    let cfg = parse("a { b\n }".to_string()).unwrap();
    assert_eq!(cfg.path(vec!["a", "b"]), None);
}

#[test]
fn lexer_error_position_reaches_caller() {
    assert_eq!(
        parse("\"abc".to_string()),
        Err(Error::new(1, 4, ErrorType::UnexpectedEOF, None))
    );
}

#[test]
fn matching_preserves_source_order() {
    let cfg = parse("node a ; node b ; node c ;".to_string()).unwrap();
    let nodes = cfg.matching("node");
    assert_eq!(nodes.len(), 3);
    assert_eq!(nodes[0].get(0), "a");
    assert_eq!(nodes[1].get(0), "b");
    assert_eq!(nodes[2].get(0), "c");
}
