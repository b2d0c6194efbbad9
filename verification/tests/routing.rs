use vac::routing::{Route, RoutingMatrix};

/// The per-route mix that the application keeps: a volume and five equalizer
/// bands.
#[derive(Debug, Clone, Copy, PartialEq)]
struct Mix {
    volume: f32,
    eq_bands: [f32; 5],
}

impl Default for Mix {
    fn default() -> Self {
        Mix { volume: 1.0, eq_bands: [0.0; 5] }
    }
}

#[test]
fn test_add_and_get_route() {
    let mut matrix: RoutingMatrix<Mix> = RoutingMatrix::new();
    let route = matrix.add_route("mic_1".into(), "out_1".into());
    assert_eq!(route.input_id, "mic_1");
    assert_eq!(route.output_id, "out_1");
    assert_eq!(route.mix.volume, 1.0);
    assert!(!route.muted);

    let all = matrix.get_all_routes();
    assert_eq!(all.len(), 1);
}

#[test]
fn test_remove_route() {
    let mut matrix: RoutingMatrix<Mix> = RoutingMatrix::new();
    let route = matrix.add_route("mic_1".into(), "out_1".into());
    let removed = matrix.remove_route(&route.id);
    assert!(removed.is_some());
    assert!(matrix.get_all_routes().is_empty());
}

#[test]
fn test_update_route() {
    let mut matrix: RoutingMatrix<Mix> = RoutingMatrix::new();
    let mut route = matrix.add_route("mic_1".into(), "out_1".into());
    route.mix.volume = 0.5;
    route.muted = true;
    matrix.update_route(route.clone()).unwrap();

    let stored = matrix.get_route(&route.id).unwrap();
    assert_eq!(stored.mix.volume, 0.5);
    assert!(stored.muted);
}

#[test]
fn test_get_routes_for_input() {
    let mut matrix: RoutingMatrix<Mix> = RoutingMatrix::new();
    matrix.add_route("mic_1".into(), "out_1".into());
    matrix.add_route("mic_1".into(), "out_2".into());
    matrix.add_route("mic_2".into(), "out_1".into());

    let routes = matrix.get_routes_for_input("mic_1");
    assert_eq!(routes.len(), 2);

    let routes = matrix.get_routes_for_input("mic_3");
    assert_eq!(routes.len(), 0);
}

#[test]
fn test_clear() {
    let mut matrix: RoutingMatrix<Mix> = RoutingMatrix::new();
    matrix.add_route("a".into(), "b".into());
    matrix.add_route("c".into(), "d".into());
    matrix.clear();
    assert!(matrix.get_all_routes().is_empty());
}

#[test]
fn test_update_nonexistent_route_fails() {
    let mut matrix: RoutingMatrix<Mix> = RoutingMatrix::new();
    let route: Route<Mix> = Route::default();
    let result = matrix.update_route(route);
    assert!(result.is_err());
}

#[test]
fn route_ids_count_up_from_one() {
    let mut matrix: RoutingMatrix<Mix> = RoutingMatrix::new();
    let a = matrix.add_route("mic_0".into(), "out_0".into());
    let b = matrix.add_route("mic_0".into(), "out_1".into());
    assert_eq!(a.id, "route_1");
    assert_eq!(b.id, "route_2");
    assert_eq!(matrix.next_route_number(), 3);
}

#[test]
fn clear_restarts_numbering() {
    let mut matrix: RoutingMatrix<Mix> = RoutingMatrix::new();
    matrix.add_route("a".into(), "b".into());
    matrix.add_route("c".into(), "d".into());
    matrix.clear();
    let r = matrix.add_route("e".into(), "f".into());
    assert_eq!(r.id, "route_1");
}

#[test]
fn ids_stay_unique_after_removal() {
    let mut matrix: RoutingMatrix<Mix> = RoutingMatrix::new();
    matrix.add_route("a".into(), "b".into());
    let second = matrix.add_route("c".into(), "d".into());
    matrix.remove_route("route_1");
    let third = matrix.add_route("e".into(), "f".into());
    assert_eq!(third.id, "route_3");
    assert_ne!(third.id, second.id);
    assert_eq!(matrix.get_all_routes().len(), 2);
}

#[test]
fn read_after_update_returns_written_route() {
    let mut matrix: RoutingMatrix<Mix> = RoutingMatrix::new();
    let a = matrix.add_route("a".into(), "b".into());
    let b = matrix.add_route("c".into(), "d".into());
    let mut changed = a.clone();
    changed.mix.eq_bands[2] = 3.0;
    changed.output_id = "z".into();
    matrix.update_route(changed.clone()).unwrap();
    let stored = matrix.get_route("route_1").unwrap();
    assert_eq!(stored.output_id, "z");
    assert_eq!(stored.mix, changed.mix);
    let other = matrix.get_route("route_2").unwrap();
    assert_eq!(other.output_id, b.output_id);
}

#[test]
fn update_of_unknown_id_reports_route_not_found() {
    let mut matrix: RoutingMatrix<Mix> = RoutingMatrix::new();
    matrix.add_route("a".into(), "b".into());
    let mut r: Route<Mix> = Route::default();
    r.id = "route_9".into();
    assert_eq!(matrix.update_route(r), Err("Route not found".to_string()));
    assert_eq!(matrix.get_all_routes().len(), 1);
}

#[test]
fn removing_unknown_route_changes_nothing() {
    let mut matrix: RoutingMatrix<Mix> = RoutingMatrix::new();
    matrix.add_route("a".into(), "b".into());
    assert!(matrix.remove_route("route_7").is_none());
    assert!(matrix.get_route("route_7").is_none());
    assert_eq!(matrix.get_all_routes().len(), 1);
}

#[test]
fn routes_for_output_keep_insertion_order() {
    let mut matrix: RoutingMatrix<Mix> = RoutingMatrix::new();
    matrix.add_route("mic_1".into(), "out_1".into());
    matrix.add_route("mic_2".into(), "out_2".into());
    matrix.add_route("mic_3".into(), "out_1".into());
    let routes = matrix.get_routes_for_output("out_1");
    assert_eq!(routes.len(), 2);
    assert_eq!(routes[0].input_id, "mic_1");
    assert_eq!(routes[1].input_id, "mic_3");
}

#[test]
fn default_route_is_empty_and_unmuted() {
    let r: Route<Mix> = Route::default();
    assert_eq!(r.id, "");
    assert_eq!(r.input_id, "");
    assert_eq!(r.output_id, "");
    assert!(!r.muted);
    assert_eq!(r.mix.volume, 1.0);
}
