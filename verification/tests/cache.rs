use phosphor::world::World;

const MESH: u64 = 7;
const CALLS: u64 = 99;

#[test]
fn loader_runs_exactly_once_for_a_key() {
    let w: World<u64> = World::new();
    let loader = |mut w: World<u64>, _path: String| {
        let calls = w.take_resource(CALLS).unwrap_or(0);
        w.add_resource(CALLS, calls + 1);
        (w, Ok::<u64, String>(42))
    };
    let (w, first) = w.load(MESH, "res/teapot.obj".to_string(), loader);
    let (w, second) = w.load(MESH, "res/teapot.obj".to_string(), loader);
    // both calls return the same logical value
    assert_eq!(first.unwrap(), 42);
    assert_eq!(second.unwrap(), 42);
    // the loader ran once: the second call was served from the cache
    assert_eq!(w.get_resource(CALLS), Ok(&1));
}

#[test]
fn distinct_paths_and_types_load_separately() {
    let w: World<u64> = World::new();
    let loader_a = |w: World<u64>, _p: String| (w, Ok::<u64, String>(1));
    let loader_b = |w: World<u64>, _p: String| (w, Ok::<u64, String>(2));
    let (w, a) = w.load(MESH, "a.obj".to_string(), loader_a);
    let (w, b) = w.load(MESH, "b.obj".to_string(), loader_b);
    let (w, c) = w.load(CALLS, "a.obj".to_string(), loader_b);
    assert_eq!(a.unwrap(), 1);
    assert_eq!(b.unwrap(), 2);
    assert_eq!(c.unwrap(), 2);
    assert_eq!(w.cached_asset(MESH, &"a.obj".to_string()), Some(&1));
    assert_eq!(w.cached_asset(MESH, &"b.obj".to_string()), Some(&2));
    assert_eq!(w.cached_asset(CALLS, &"a.obj".to_string()), Some(&2));
}

#[test]
fn failed_load_is_not_cached_and_is_retried() {
    let mut w: World<u64> = World::new();
    w.add_resource(CALLS, 0);
    let loader = |mut w: World<u64>, _path: String| {
        let calls = w.take_resource(CALLS).unwrap();
        w.add_resource(CALLS, calls + 1);
        if calls == 0 {
            (w, Err("file not found".to_string()))
        } else {
            (w, Ok(5))
        }
    };
    let (w, first) = w.load(MESH, "m.obj".to_string(), loader);
    let failure = first.unwrap_err();
    assert_eq!(failure.0, "file not found");
    // no stale failure is cached
    assert_eq!(w.cached_asset(MESH, &"m.obj".to_string()), None);
    // the retry runs the loader again and succeeds
    let (w, second) = w.load(MESH, "m.obj".to_string(), loader);
    assert_eq!(second.unwrap(), 5);
    assert_eq!(w.cached_asset(MESH, &"m.obj".to_string()), Some(&5));
    assert_eq!(w.get_resource(CALLS), Ok(&2));
}

#[test]
fn loader_may_touch_the_world_it_is_handed() {
    let w: World<u64> = World::new();
    let loader = |mut w: World<u64>, _p: String| {
        let e = w.spawn(Some("spawned by loader".to_string()));
        w.insert(CALLS, e, 1).unwrap();
        (w, Ok::<u64, String>(8))
    };
    let (w, r) = w.load(MESH, "scene.obj".to_string(), loader);
    assert_eq!(r.unwrap(), 8);
    assert_eq!(w.query(CALLS).len(), 1);
}
