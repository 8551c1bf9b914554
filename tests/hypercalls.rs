use capa_engine::config::NB_DOMAINS;
use capa_engine::hypercalls::{
    ErrorCode, Hypercalls, Parameters, Registers, DOMAIN_CREATE, DOMAIN_GET_OWN_ID, DOMAIN_SEAL, EXIT,
};

fn call(vmcall: usize) -> Parameters {
    Parameters { vmcall, arg_1: 0, arg_2: 0, arg_3: 0 }
}

#[test]
fn own_id_is_root() {
    let mut calls = Hypercalls::new();
    let regs = calls.dispatch(call(DOMAIN_GET_OWN_ID)).ok().unwrap();
    assert_eq!(regs, Registers { value_1: 0, value_2: 0, value_3: 0 });
}

#[test]
fn create_until_full() {
    let mut calls = Hypercalls::new();
    for i in 1..NB_DOMAINS {
        let regs = calls.dispatch(call(DOMAIN_CREATE)).ok().unwrap();
        assert_eq!(regs.value_1, i);
    }
    assert_eq!(calls.dispatch(call(DOMAIN_CREATE)).err(), Some(ErrorCode::OutOfMemory));
    assert_eq!(ErrorCode::OutOfMemory.as_usize(), 3);
}

#[test]
fn unknown_calls_and_exit() {
    let mut calls = Hypercalls::new();
    assert_eq!(calls.dispatch(call(DOMAIN_SEAL)).err(), Some(ErrorCode::UnknownVmCall));
    assert!(calls.is_exit(&call(EXIT)));
    assert!(!calls.is_exit(&call(DOMAIN_CREATE)));
    assert_eq!(ErrorCode::Success.as_usize(), 0);
    assert_eq!(Registers::default(), Registers { value_1: 0, value_2: 0, value_3: 0 });
}
