use brownian::args::{grid_size_from_args, parse_grid_spec};
use brownian::config;

fn args(list: &[&str]) -> Vec<String> {
    list.iter().map(|s| s.to_string()).collect()
}

/// The same reading written with the standard library, to compare against.
fn reference(spec: &str) -> Option<(usize, usize)> {
    spec.split_once(['x', 'X']).and_then(|(w, h)| {
        let w = w.trim().parse::<usize>().ok()?;
        let h = h.trim().parse::<usize>().ok()?;
        if w >= 2 && h >= 2 {
            Some((w, h))
        } else {
            None
        }
    })
}

#[test]
fn grid_specs_are_read_as_width_by_height() {
    assert_eq!(parse_grid_spec("1024x576"), Some((1024, 576)));
    assert_eq!(parse_grid_spec("2048X1152"), Some((2048, 1152)));
    assert_eq!(parse_grid_spec(" 64 x\t48 "), Some((64, 48)));
    assert_eq!(parse_grid_spec("+8x+9"), Some((8, 9)));
    assert_eq!(parse_grid_spec("2x2"), Some((2, 2)));
}

#[test]
fn bad_grid_specs_are_turned_down() {
    for spec in [
        "", "x", "1024", "1x576", "1024x1", "0x0", "-4x4", "4x-4", "4x4x4", "ax4", "4 4x4", "+x4",
        "4x", "x4", "99999999999999999999999x4", "4\u{00A0}x4\u{3000}", "\u{0661}\u{0662}x\u{0663}\u{0664}",
    ] {
        assert_eq!(parse_grid_spec(spec), reference(spec), "spec {spec:?}");
    }
    assert_eq!(parse_grid_spec("1x576"), None);
    assert_eq!(parse_grid_spec("4x4x4"), None);
    assert_eq!(parse_grid_spec("99999999999999999999999x4"), None);
    assert_eq!(parse_grid_spec("4\u{00A0}x4\u{3000}"), Some((4, 4)));
}

#[test]
fn grid_specs_agree_with_the_standard_library() {
    let pieces = ["", " ", "0", "1", "2", "7", "+", "-", "12", "x", "X", "a", "\t", "18446744073709551615", "18446744073709551616"];
    for a in pieces {
        for b in pieces {
            for c in pieces {
                let spec = format!("{a}{b}{c}");
                assert_eq!(parse_grid_spec(&spec), reference(&spec), "spec {spec:?}");
            }
        }
    }
}

#[test]
fn grid_from_args_takes_the_first_valid_spec() {
    let (dims, rejected) = grid_size_from_args(&args(&[]));
    assert_eq!(dims, (config::GRID_W, config::GRID_H));
    assert!(rejected.is_empty());

    let (dims, rejected) =
        grid_size_from_args(&args(&["--backend", "gpu", "--grid", "1x1", "--grid", "80x60", "--grid", "9x9"]));
    assert_eq!(dims, (80, 60));
    assert_eq!(rejected, args(&["1x1"]));

    let (dims, rejected) = grid_size_from_args(&args(&["--grid"]));
    assert_eq!(dims, (config::GRID_W, config::GRID_H));
    assert!(rejected.is_empty());

    let (dims, rejected) = grid_size_from_args(&args(&["--grid", "big", "--grid", "nope"]));
    assert_eq!(dims, (config::GRID_W, config::GRID_H));
    assert_eq!(rejected, args(&["big", "nope"]));
}
