use brownian::field::{BackendKind, RayonBackend, SerialBackend};
use brownian::shapes::ShapeKind;

#[test]
fn shapes_cycle_forwards_and_backwards() {
    assert_eq!(ShapeKind::Ball.next(), ShapeKind::Square);
    assert_eq!(ShapeKind::Square.next(), ShapeKind::Triangle);
    assert_eq!(ShapeKind::Triangle.next(), ShapeKind::Capsule);
    assert_eq!(ShapeKind::Capsule.next(), ShapeKind::Ball);
    assert_eq!(ShapeKind::Ball.prev(), ShapeKind::Capsule);
    assert_eq!(ShapeKind::Capsule.prev(), ShapeKind::Triangle);
    for s in ShapeKind::ALL {
        assert_eq!(s.next().prev(), s);
        assert_eq!(s.prev().next(), s);
        assert_eq!(s.next().next().next().next(), s);
    }
    assert_eq!(ShapeKind::default(), ShapeKind::Ball);
}

#[test]
fn shapes_have_distinct_labels() {
    let labels: Vec<&str> = ShapeKind::ALL.iter().map(|s| s.label()).collect();
    assert_eq!(labels, vec!["circulo", "cuadrado", "triangulo", "capsula"]);
}

#[test]
fn backends_cycle_and_parse() {
    assert_eq!(BackendKind::default(), BackendKind::Serial);
    assert_eq!(BackendKind::Serial.next(), BackendKind::Rayon);
    assert_eq!(BackendKind::Rayon.next(), BackendKind::Gpu);
    assert_eq!(BackendKind::Gpu.next(), BackendKind::Serial);
    assert_eq!(BackendKind::parse("serial"), Some(BackendKind::Serial));
    assert_eq!(BackendKind::parse("rayon"), Some(BackendKind::Rayon));
    assert_eq!(BackendKind::parse("gpu"), Some(BackendKind::Gpu));
    assert_eq!(BackendKind::parse("GPU"), None);
    assert_eq!(BackendKind::parse(""), None);
    assert_eq!(BackendKind::parse("serial "), None);
    assert_eq!(SerialBackend.name(), "serial");
    assert_eq!(RayonBackend.name(), "rayon");
}

fn args(list: &[&str]) -> Vec<String> {
    list.iter().map(|s| s.to_string()).collect()
}

#[test]
fn backend_from_args_takes_the_first_known_name() {
    let (kind, rejected) = BackendKind::from_args(&args(&["--grid", "8x8", "--backend", "gpu"]));
    assert_eq!(kind, BackendKind::Gpu);
    assert!(rejected.is_empty());

    let (kind, rejected) =
        BackendKind::from_args(&args(&["--backend", "cuda", "--backend", "rayon", "--backend", "gpu"]));
    assert_eq!(kind, BackendKind::Rayon);
    assert_eq!(rejected, args(&["cuda"]));

    let (kind, rejected) = BackendKind::from_args(&args(&["--backend"]));
    assert_eq!(kind, BackendKind::Serial);
    assert!(rejected.is_empty());

    let (kind, rejected) = BackendKind::from_args(&args(&[]));
    assert_eq!(kind, BackendKind::Serial);
    assert!(rejected.is_empty());

    // The name after `--backend` is consumed even when it looks like a flag.
    let (kind, rejected) = BackendKind::from_args(&args(&["--backend", "--backend", "gpu"]));
    assert_eq!(kind, BackendKind::Serial);
    assert_eq!(rejected, args(&["--backend"]));
}
