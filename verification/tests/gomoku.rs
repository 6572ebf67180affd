use fights::agent::Agent;
use fights::env::Env;
use fights::gomoku::GomokuEnv;
use fights::ndarray::NDArray;

#[test]
fn invalid_placement() {
    let a = Agent {
        id: "0".to_string(),
    };
    let b = Agent {
        id: "1".to_string(),
    };

    let env = GomokuEnv::new((10, 10), 5, (&a, &b));
    let valid = env.check_action(&NDArray::from_vec(vec![11, 0], &[2]).unwrap());
    assert_eq!(valid, false);
}

#[test]
fn no_win() {
    let a = Agent {
        id: "0".to_string(),
    };
    let b = Agent {
        id: "1".to_string(),
    };

    let xs = [0, 2, 4, 5, 6];
    let mut env = GomokuEnv::new((10, 10), 5, (&a, &b));
    let mut res = env.reset();
    for x in xs {
        res = env.step(&a, NDArray::from_vec(vec![x, 0], &[2]).unwrap());
    }

    assert_eq!(res.done, false);
}

#[test]
fn win_horizontal() {
    let a = Agent {
        id: "0".to_string(),
    };
    let b = Agent {
        id: "1".to_string(),
    };

    let xs = [0, 1, 2, 3, 4];
    let mut env = GomokuEnv::new((10, 10), 5, (&a, &b));
    let mut res = env.reset();
    for x in xs {
        res = env.step(&a, NDArray::from_vec(vec![x, 0], &[2]).unwrap());
    }

    assert_eq!(res.done, true);
}

#[test]
fn win_vertical() {
    let a = Agent {
        id: "0".to_string(),
    };
    let b = Agent {
        id: "1".to_string(),
    };

    let ys = [0, 1, 2, 3, 4];
    let mut env = GomokuEnv::new((10, 10), 5, (&a, &b));
    let mut res = env.reset();
    for y in ys {
        res = env.step(&a, NDArray::from_vec(vec![0, y], &[2]).unwrap());
    }

    assert_eq!(res.done, true);
}

#[test]
fn win_diagonal() {
    let a = Agent {
        id: "0".to_string(),
    };
    let b = Agent {
        id: "1".to_string(),
    };

    let mut env = GomokuEnv::new((10, 10), 5, (&a, &b));
    env.step(&a, NDArray::from_vec(vec![0, 5], &[2]).unwrap());
    env.step(&a, NDArray::from_vec(vec![1, 4], &[2]).unwrap());
    env.step(&a, NDArray::from_vec(vec![2, 3], &[2]).unwrap());
    env.step(&a, NDArray::from_vec(vec![3, 2], &[2]).unwrap());
    let res = env.step(&a, NDArray::from_vec(vec![4, 1], &[2]).unwrap());
    assert_eq!(res.done, true);
}

#[test]
fn win_diagonal_opposite() {
    let a = Agent {
        id: "0".to_string(),
    };
    let b = Agent {
        id: "1".to_string(),
    };

    let mut env = GomokuEnv::new((10, 10), 5, (&a, &b));
    env.step(&a, NDArray::from_vec(vec![4, 0], &[2]).unwrap());
    env.step(&a, NDArray::from_vec(vec![3, 1], &[2]).unwrap());
    env.step(&a, NDArray::from_vec(vec![2, 2], &[2]).unwrap());
    env.step(&a, NDArray::from_vec(vec![1, 3], &[2]).unwrap());
    let res = env.step(&a, NDArray::from_vec(vec![0, 4], &[2]).unwrap());
    assert_eq!(res.done, true);
}

#[test]
#[should_panic]
fn place_after_win() {
    let a = Agent {
        id: "0".to_string(),
    };
    let b = Agent {
        id: "1".to_string(),
    };

    let xs = [0, 1, 2, 3, 4];
    let mut env = GomokuEnv::new((10, 10), 5, (&a, &b));
    let mut res = env.reset();
    for x in xs {
        res = env.step(&a, NDArray::from_vec(vec![x, 0], &[2]).unwrap());
    }

    assert_eq!(res.done, true);
    _ = env.step(&b, NDArray::from_vec(vec![1, 1], &[1]).unwrap());
}
