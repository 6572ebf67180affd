use fights::agent::Agent;
use fights::env::Env;
use fights::gomoku::GomokuEnv;
use fights::ndarray::{NDArray, ShapeError};
use fights::session::Session;
use fights::ServerState;

#[test]
fn round_trip_indexing() {
    let data: Vec<usize> = (0..24).collect();
    let original = NDArray::from_vec(data, &[3, 4, 2]).unwrap();
    for i in 0..3 {
        for j in 0..4 {
            for k in 0..2 {
                let mut written = original.clone();
                written.set(&[i, j, k], 100);
                assert_eq!(written.get(&[i, j, k]), 100);
                for i2 in 0..3 {
                    for j2 in 0..4 {
                        for k2 in 0..2 {
                            if (i2, j2, k2) != (i, j, k) {
                                assert_eq!(
                                    written.get(&[i2, j2, k2]),
                                    original.get(&[i2, j2, k2])
                                );
                            }
                        }
                    }
                }
            }
        }
    }
}

#[test]
fn shape_size_contract() {
    assert!(NDArray::from_vec(vec![1, 2, 3, 4, 5, 6], &[2, 3]).is_ok());
    assert_eq!(
        NDArray::from_vec(vec![1, 2, 3, 4, 5], &[2, 3]).unwrap_err(),
        ShapeError
    );
    assert_eq!(
        NDArray::from_vec(vec![1, 2, 3, 4, 5, 6, 7], &[2, 3]).unwrap_err(),
        ShapeError
    );
    // A zero-size shape accepts exactly the empty sequence.
    assert!(NDArray::from_vec(Vec::new(), &[0, 3]).is_ok());
    assert!(NDArray::from_vec(vec![1], &[0, 3]).is_err());
}

#[test]
fn zeros_and_ones() {
    let z: NDArray<2> = NDArray::zeros(&[2, 3]);
    assert_eq!(z.shape(), &[2, 3]);
    assert_eq!(z.into_flat_vec(), vec![0; 6]);
    let o: NDArray<3> = NDArray::ones(&[2, 2, 2]);
    assert_eq!(o.shape(), &[2, 2, 2]);
    assert_eq!(o.into_flat_vec(), vec![1; 8]);
    let e: NDArray<2> = NDArray::new();
    assert_eq!(e.shape(), &[0, 0]);
    assert_eq!(e.into_flat_vec(), Vec::<usize>::new());
}

#[test]
fn transpose_swaps_axes() {
    let t = NDArray::from_vec(vec![1, 2, 3, 4, 5, 6], &[2, 3]).unwrap();
    let tt = t.transpose();
    assert_eq!(tt.shape(), &[3, 2]);
    for i in 0..2 {
        for j in 0..3 {
            assert_eq!(tt.get2(j, i), t.get2(i, j));
        }
    }
}

#[test]
fn fliplr_reverses_rows() {
    let t = NDArray::from_vec(vec![1, 2, 3, 4, 5, 6], &[2, 3]).unwrap();
    let f = t.fliplr();
    assert_eq!(f.shape(), &[2, 3]);
    assert_eq!(f.into_flat_vec(), vec![3, 2, 1, 6, 5, 4]);
}

#[test]
fn convolution_shape_law() {
    let input = NDArray::from_vec((1..=9).collect(), &[3, 3]).unwrap();
    let kernel: NDArray<2> = NDArray::ones(&[2, 2]);
    let out = input.conv2d(&kernel).unwrap();
    assert_eq!(out.shape(), &[3 - 2 + 1, 3 - 2 + 1]);
    assert_eq!(out.into_flat_vec(), vec![12, 16, 24, 28]);

    let row_kernel: NDArray<2> = NDArray::ones(&[1, 3]);
    let row_out = input.conv2d(&row_kernel).unwrap();
    assert_eq!(row_out.shape(), &[3, 1]);
    assert_eq!(row_out.into_flat_vec(), vec![6, 15, 24]);
}

#[test]
fn convolution_kernel_too_large() {
    let input: NDArray<2> = NDArray::zeros(&[2, 2]);
    let big: NDArray<2> = NDArray::ones(&[3, 3]);
    assert_eq!(input.conv2d(&big).unwrap_err(), ShapeError);
    let wide: NDArray<2> = NDArray::ones(&[2, 3]);
    assert_eq!(input.conv2d(&wide).unwrap_err(), ShapeError);
    let empty: NDArray<2> = NDArray::ones(&[0, 2]);
    assert_eq!(input.conv2d(&empty).unwrap_err(), ShapeError);
}

#[test]
fn illegal_actions_change_nothing() {
    let a = Agent {
        id: "0".to_string(),
    };
    let b = Agent {
        id: "1".to_string(),
    };
    let mut env = GomokuEnv::new((10, 10), 5, (&a, &b));
    env.reset();
    let first = env.step(&a, NDArray::from_vec(vec![3, 3], &[2]).unwrap());
    assert_eq!(first.done, false);
    let board_before = env.board.into_flat_vec();

    // Occupied cell: the board and the terminal flag stay as they are.
    let occupied = env.step(&b, NDArray::from_vec(vec![3, 3], &[2]).unwrap());
    assert_eq!(env.board.into_flat_vec(), board_before);
    assert_eq!(occupied.done, false);

    // Out-of-range coordinates on either axis: same story.
    let off_x = env.step(&b, NDArray::from_vec(vec![10, 0], &[2]).unwrap());
    assert_eq!(env.board.into_flat_vec(), board_before);
    assert_eq!(off_x.done, false);
    let off_y = env.step(&b, NDArray::from_vec(vec![0, 10], &[2]).unwrap());
    assert_eq!(env.board.into_flat_vec(), board_before);
    assert_eq!(off_y.done, false);
}

#[test]
fn second_agent_marks_two() {
    let a = Agent {
        id: "0".to_string(),
    };
    let b = Agent {
        id: "1".to_string(),
    };
    let mut env = GomokuEnv::new((3, 3), 3, (&a, &b));
    env.step(&a, NDArray::from_vec(vec![0, 0], &[2]).unwrap());
    env.step(&b, NDArray::from_vec(vec![1, 1], &[2]).unwrap());
    assert_eq!(env.board.get2(0, 0), 1);
    assert_eq!(env.board.get2(1, 1), 2);
}

#[test]
fn step_after_terminal_is_a_no_op() {
    let a = Agent {
        id: "0".to_string(),
    };
    let b = Agent {
        id: "1".to_string(),
    };
    let mut env = GomokuEnv::new((10, 10), 5, (&a, &b));
    for x in [0, 1, 2, 3, 4] {
        env.step(&a, NDArray::from_vec(vec![x, 0], &[2]).unwrap());
    }
    let board_before = env.board.into_flat_vec();
    // The game is over; even an otherwise legal move no longer lands.
    let res = env.step(&b, NDArray::from_vec(vec![7, 7], &[2]).unwrap());
    assert_eq!(env.board.into_flat_vec(), board_before);
    assert_eq!(res.done, true);
}

#[test]
fn reset_is_idempotent() {
    let a = Agent {
        id: "0".to_string(),
    };
    let b = Agent {
        id: "1".to_string(),
    };
    let mut env = GomokuEnv::new((4, 4), 3, (&a, &b));
    env.step(&a, NDArray::from_vec(vec![1, 2], &[2]).unwrap());
    let r1 = env.reset();
    let r2 = env.reset();
    assert_eq!(r1.state.into_flat_vec(), r2.state.into_flat_vec());
    assert_eq!(r1.state.into_flat_vec(), vec![0; 16]);
    assert_eq!(r1.state.shape(), r2.state.shape());
    assert_eq!(r1.done, false);
    assert_eq!(r2.done, false);
    assert_eq!(r1.info, "Gomoku v0");
}

#[test]
fn session_ids_have_uuid_length() {
    let s = Session::new();
    assert_eq!(s.id.len(), 36);
    assert!(s.agents.is_empty());
}

#[test]
fn server_starts_empty() {
    let state = ServerState::new();
    assert!(state.sessions.is_empty());
}

#[test]
fn win_condition_one_wins_immediately() {
    let a = Agent {
        id: "0".to_string(),
    };
    let b = Agent {
        id: "1".to_string(),
    };
    let mut env = GomokuEnv::new((3, 3), 1, (&a, &b));
    let res = env.step(&a, NDArray::from_vec(vec![2, 2], &[2]).unwrap());
    assert_eq!(res.done, true);
}

#[test]
fn win_condition_larger_than_board_never_wins() {
    let a = Agent {
        id: "0".to_string(),
    };
    let b = Agent {
        id: "1".to_string(),
    };
    let mut env = GomokuEnv::new((3, 3), 4, (&a, &b));
    let mut res = env.reset();
    for x in 0..3 {
        res = env.step(&a, NDArray::from_vec(vec![x, 0], &[2]).unwrap());
    }
    assert_eq!(res.done, false);
}
