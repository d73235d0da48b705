use mycelia::peer::Address;
use mycelia::router::{
    after_forward, answer_for_trimmed, worker_generate, Dispatch, ForwardOutcome, GenerateRequest,
    NextStep, Role, Router,
};

fn addr(i: u8) -> Address {
    Address::V4([10, 0, 0, i])
}

#[test]
fn generate_round_robin() {
    let targets = vec![addr(1), addr(2)];
    let mut shim = Router::new(Role::Shim);
    assert_eq!(shim.dispatch(&targets), Dispatch::Forward(addr(1)));
    assert_eq!(shim.dispatch(&targets), Dispatch::Forward(addr(2)));
    assert_eq!(shim.dispatch(&targets), Dispatch::Forward(addr(1)));
    let reply = worker_generate(&GenerateRequest { prompt: "2+2=?".into() });
    assert!(reply.response.contains("4"));
    assert!(reply.done);
}

#[test]
fn round_robin_is_fair() {
    let targets = vec![addr(1), addr(2), addr(3)];
    let mut shim = Router::new(Role::Shim);
    let mut counts = [0usize; 3];
    let mut seq = Vec::new();
    for _ in 0..7 {
        match shim.dispatch(&targets) {
            Dispatch::Forward(Address::V4([_, _, _, i])) => {
                counts[(i - 1) as usize] += 1;
                seq.push(i);
            }
            other => panic!("unexpected dispatch {:?}", other),
        }
    }
    assert_eq!(counts, [3, 2, 2]);
    assert_eq!(seq, vec![1, 2, 3, 1, 2, 3, 1]);
}

#[test]
fn worker_always_runs_locally() {
    let mut w = Router::new(Role::Worker);
    assert_eq!(w.role(), Role::Worker);
    assert_eq!(w.dispatch(&vec![addr(1)]), Dispatch::Local);
    assert_eq!(w.dispatch(&vec![]), Dispatch::Local);
}

#[test]
fn shim_with_no_peers_answers_like_worker() {
    let mut shim = Router::new(Role::Shim);
    assert_eq!(shim.dispatch(&vec![]), Dispatch::Local);
    // the counter did not move: the first forwarded request takes the first peer
    assert_eq!(shim.dispatch(&vec![addr(5), addr(6)]), Dispatch::Forward(addr(5)));
    let reply = worker_generate(&GenerateRequest { prompt: "2+2=?".into() });
    assert_eq!(reply.response, "4");
    assert!(reply.done);
}

#[test]
fn forwarding_failure_falls_back_to_local() {
    assert_eq!(after_forward(ForwardOutcome::Failed), NextStep::ExecuteLocally);
    assert_eq!(after_forward(ForwardOutcome::Connected), NextStep::Relay);
}

#[test]
fn prompt_is_trimmed_before_answering() {
    let reply = worker_generate(&GenerateRequest { prompt: "  2+2=?\n".into() });
    assert_eq!(reply.response, "4");
    let other = worker_generate(&GenerateRequest { prompt: "hello".into() });
    assert_eq!(other.response, "");
    assert!(other.done);
}

#[test]
fn answer_for_trimmed_exact() {
    assert_eq!(answer_for_trimmed("2+2=?"), "4");
    assert_eq!(answer_for_trimmed(" 2+2=?"), "");
    assert_eq!(answer_for_trimmed(""), "");
}
