use tessera::mock::MockRuntime;
use tessera::runtime::{ModelRuntime, RuntimeError};
use tessera::{SeqId, TokenId};

fn seq(n: u64) -> SeqId {
    SeqId(n)
}

fn tok(n: u32) -> TokenId {
    TokenId(n)
}

#[test]
fn replays_scripted_tokens_in_order() {
    let mut rt = MockRuntime::new();
    rt.script(seq(1), vec![tok(10), tok(11), tok(12)]);

    assert_eq!(rt.prefill(seq(1), &[tok(1), tok(2)]).unwrap(), tok(10));
    assert_eq!(rt.decode(seq(1), tok(10)).unwrap(), tok(11));
    assert_eq!(rt.decode(seq(1), tok(11)).unwrap(), tok(12));
}

#[test]
fn exhausted_script_errors() {
    let mut rt = MockRuntime::new();
    rt.script(seq(1), vec![tok(10)]);

    assert_eq!(rt.prefill(seq(1), &[]).unwrap(), tok(10));
    assert!(matches!(
        rt.decode(seq(1), tok(10)),
        Err(RuntimeError::Exhausted(_))
    ));
}

#[test]
fn decode_before_prefill_errors() {
    let mut rt = MockRuntime::new();
    rt.script(seq(1), vec![tok(10), tok(11)]);

    assert!(matches!(
        rt.decode(seq(1), tok(0)),
        Err(RuntimeError::NotPrefilled(_))
    ));
}

#[test]
fn determinism_two_runs_match() {
    let run = || {
        let mut rt = MockRuntime::new();
        rt.script(seq(42), vec![tok(7), tok(8), tok(9)]);
        let a = rt.prefill(seq(42), &[tok(1)]).unwrap();
        let b = rt.decode(seq(42), a).unwrap();
        let c = rt.decode(seq(42), b).unwrap();
        (a, b, c)
    };
    assert_eq!(run(), run());
}

#[test]
fn an_unscripted_sequence_is_exhausted() {
    let mut rt = MockRuntime::default();
    assert!(matches!(
        rt.prefill(seq(5), &[tok(1)]),
        Err(RuntimeError::Exhausted(SeqId(5)))
    ));
    assert!(matches!(
        rt.decode(seq(5), tok(1)),
        Err(RuntimeError::Exhausted(SeqId(5)))
    ));
}
