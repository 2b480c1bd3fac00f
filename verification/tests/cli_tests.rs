use quickshare_core::args::{has_flag, nth_non_flag, parse_serve_options, CliError};
use quickshare_core::transport::config::QuicConfig;
use quickshare_core::types::AppConfig;

fn args(xs: &[&str]) -> Vec<String> {
    xs.iter().map(|s| s.to_string()).collect()
}

#[test]
fn positional_arguments_skip_flags() {
    let a = args(&["qs", "send", "--compress", "1.2.3.4:8877", "--bundle", "file.txt"]);
    assert_eq!(nth_non_flag(&a, 0).unwrap(), "qs");
    assert_eq!(nth_non_flag(&a, 2).unwrap(), "1.2.3.4:8877");
    assert_eq!(nth_non_flag(&a, 3).unwrap(), "file.txt");
    assert!(matches!(nth_non_flag(&a, 4), Err(CliError::MissingArgument(4))));
    assert!(has_flag(&a, "--compress"));
    assert!(!has_flag(&args(&["qs", "send"]), "--bundle"));
}

#[test]
fn serve_options() {
    let o = parse_serve_options(&args(&["qs", "serve"])).unwrap();
    assert_eq!(o.port, 8877);
    assert!(o.save_dir.is_none());
    let o = parse_serve_options(&args(&["qs", "serve", "--save", "/tmp/in", "--compress", "--port", "9000"])).unwrap();
    assert_eq!(o.port, 9000);
    assert_eq!(o.save_dir.as_deref(), Some("/tmp/in"));
    let o = parse_serve_options(&args(&["qs", "serve", "--port"])).unwrap();
    assert_eq!(o.port, 8877);
    match parse_serve_options(&args(&["qs", "serve", "--port", "70000"])) {
        Err(CliError::InvalidPort(v)) => assert_eq!(v, "70000"),
        _ => panic!("expected an invalid port"),
    }
    assert!(parse_serve_options(&args(&["qs", "serve", "--port", "x1"])).is_err());
}

#[test]
fn first_configuration_wins() {
    let mut q = QuicConfig::new();
    let d = q.get();
    assert_eq!((d.listen_port, d.max_streams, d.chunk_size, d.pipeline_depth), (8877, 8, 4 * 1024 * 1024, 4));
    let first = AppConfig { listen_port: 1, max_streams: 2, chunk_size: 3, pipeline_depth: 4 };
    let second = AppConfig { listen_port: 9, max_streams: 9, chunk_size: 9, pipeline_depth: 9 };
    q.init(first);
    q.init(second);
    assert_eq!(q.get(), first);
}
