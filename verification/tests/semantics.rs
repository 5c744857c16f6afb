use stateright::semantics::register::{Register, RegisterOp, RegisterRet};
use stateright::semantics::vec::{VecOp, VecRet};
use stateright::semantics::write_once_register::{WORegister, WORegisterOp, WORegisterRet};
use stateright::semantics::{ConsistencyTester, HistoryCheck, LinearizabilityTester, SequentialSpec};

#[test]
fn rejects_invalid_history() -> Result<(), String> {
    assert_eq!(
        LinearizabilityTester::new(Register('A'))
            .on_invoke(99, RegisterOp::Write('B'))?
            .on_invoke(99, RegisterOp::Write('C')),
        Err("Thread already has an operation in flight. thread_id=99, op=Write('B'), history_by_thread={99: []}".to_string()));
    assert_eq!(
        LinearizabilityTester::new(Register('A'))
            .on_invret(99, RegisterOp::Write('B'), RegisterRet::WriteOk)?
            .on_invret(99, RegisterOp::Write('C'), RegisterRet::WriteOk)?
            .on_return(99, RegisterRet::WriteOk),
        Err("There is no in-flight invocation for this thread ID. \
             thread_id=99, \
             unexpected_return=WriteOk, \
             history=[({}, Write('B'), WriteOk), ({}, Write('C'), WriteOk)]"
            .to_string())
    );
    Ok(())
}

#[test]
fn identifies_linearizable_register_history() -> Result<(), String> {
    assert_eq!(
        LinearizabilityTester::new(Register('A'))
            .on_invoke(0, RegisterOp::Write('B'))?
            .on_invret(1, RegisterOp::Read, RegisterRet::ReadOk('A'))?
            .serialized_history(),
        Some(vec![(RegisterOp::Read, RegisterRet::ReadOk('A')),])
    );
    assert_eq!(
        LinearizabilityTester::new(Register('A'))
            .on_invoke(0, RegisterOp::Read)?
            .on_invoke(1, RegisterOp::Write('B'))?
            .on_return(0, RegisterRet::ReadOk('B'))?
            .serialized_history(),
        Some(vec![
            (RegisterOp::Write('B'), RegisterRet::WriteOk),
            (RegisterOp::Read, RegisterRet::ReadOk('B')),
        ])
    );
    Ok(())
}

#[test]
fn identifies_unlinearizable_register_history() -> Result<(), String> {
    assert_eq!(
        LinearizabilityTester::new(Register('A'))
            .on_invret(0, RegisterOp::Read, RegisterRet::ReadOk('B'))?
            .serialized_history(),
        None
    );
    assert_eq!(
        LinearizabilityTester::new(Register('A'))
            .on_invret(0, RegisterOp::Read, RegisterRet::ReadOk('B'))?
            .on_invoke(1, RegisterOp::Write('B'))?
            .serialized_history(),
        None // SC but not lineariable
    );
    Ok(())
}

#[test]
fn identifies_linearizable_vec_history() -> Result<(), String> {
    assert_eq!(
        LinearizabilityTester::new(Vec::new())
            .on_invoke(0, VecOp::Push(10))?
            .serialized_history(),
        Some(vec![])
    );
    assert_eq!(
        LinearizabilityTester::new(Vec::new())
            .on_invoke(0, VecOp::Push(10))?
            .on_invret(1, VecOp::Pop, VecRet::PopOk(None))?
            .serialized_history(),
        Some(vec![(VecOp::Pop, VecRet::PopOk(None)),])
    );
    assert_eq!(
        LinearizabilityTester::new(Vec::new())
            .on_invoke(0, VecOp::Push(10))?
            .on_invret(1, VecOp::Pop, VecRet::PopOk(Some(10)))?
            .serialized_history(),
        Some(vec![
            (VecOp::Push(10), VecRet::PushOk),
            (VecOp::Pop, VecRet::PopOk(Some(10))),
        ])
    );
    assert_eq!(
        LinearizabilityTester::new(Vec::new())
            .on_invret(0, VecOp::Push(10), VecRet::PushOk)?
            .on_invoke(0, VecOp::Push(20))?
            .on_invret(1, VecOp::Len, VecRet::LenOk(1))?
            .on_invret(1, VecOp::Pop, VecRet::PopOk(Some(20)))?
            .on_invret(1, VecOp::Pop, VecRet::PopOk(Some(10)))?
            .serialized_history(),
        Some(vec![
            (VecOp::Push(10), VecRet::PushOk),
            (VecOp::Len, VecRet::LenOk(1)),
            (VecOp::Push(20), VecRet::PushOk),
            (VecOp::Pop, VecRet::PopOk(Some(20))),
            (VecOp::Pop, VecRet::PopOk(Some(10))),
        ])
    );
    assert_eq!(
        LinearizabilityTester::new(Vec::new())
            .on_invret(0, VecOp::Push(10), VecRet::PushOk)?
            .on_invoke(0, VecOp::Push(20))?
            .on_invret(1, VecOp::Len, VecRet::LenOk(1))?
            .on_invret(1, VecOp::Pop, VecRet::PopOk(Some(10)))?
            .on_invret(1, VecOp::Pop, VecRet::PopOk(Some(20)))?
            .serialized_history(),
        Some(vec![
            (VecOp::Push(10), VecRet::PushOk),
            (VecOp::Len, VecRet::LenOk(1)),
            (VecOp::Pop, VecRet::PopOk(Some(10))),
            (VecOp::Push(20), VecRet::PushOk),
            (VecOp::Pop, VecRet::PopOk(Some(20))),
        ])
    );
    assert_eq!(
        LinearizabilityTester::new(Vec::new())
            .on_invret(0, VecOp::Push(10), VecRet::PushOk)?
            .on_invoke(0, VecOp::Push(20))?
            .on_invret(1, VecOp::Len, VecRet::LenOk(2))?
            .on_invret(1, VecOp::Pop, VecRet::PopOk(Some(20)))?
            .on_invret(1, VecOp::Pop, VecRet::PopOk(Some(10)))?
            .serialized_history(),
        Some(vec![
            (VecOp::Push(10), VecRet::PushOk),
            (VecOp::Push(20), VecRet::PushOk),
            (VecOp::Len, VecRet::LenOk(2)),
            (VecOp::Pop, VecRet::PopOk(Some(20))),
            (VecOp::Pop, VecRet::PopOk(Some(10))),
        ])
    );
    assert_eq!(
        LinearizabilityTester::new(Vec::new())
            .on_invret(0, VecOp::Push(10), VecRet::PushOk)?
            .on_invoke(1, VecOp::Len)?
            .on_invoke(0, VecOp::Push(20))?
            .on_return(1, VecRet::LenOk(1))?
            .serialized_history(),
        Some(vec![
            (VecOp::Push(10), VecRet::PushOk),
            (VecOp::Len, VecRet::LenOk(1)),
        ])
    );
    assert_eq!(
        LinearizabilityTester::new(Vec::new())
            .on_invret(0, VecOp::Push(10), VecRet::PushOk)?
            .on_invoke(1, VecOp::Len)?
            .on_invoke(0, VecOp::Push(20))?
            .on_return(1, VecRet::LenOk(2))?
            .serialized_history(),
        Some(vec![
            (VecOp::Push(10), VecRet::PushOk),
            (VecOp::Push(20), VecRet::PushOk),
            (VecOp::Len, VecRet::LenOk(2)),
        ])
    );
    Ok(())
}

#[test]
fn identifies_unlinearizable_vec_history() -> Result<(), String> {
    assert_eq!(
        LinearizabilityTester::new(Vec::new())
            .on_invret(0, VecOp::Push(10), VecRet::PushOk)?
            .on_invret(1, VecOp::Pop, VecRet::PopOk(None))?
            .serialized_history(),
        None // SC but not lineariable
    );
    assert_eq!(
        LinearizabilityTester::new(Vec::new())
            .on_invret(0, VecOp::Push(10), VecRet::PushOk)?
            .on_invoke(1, VecOp::Len)?
            .on_invoke(0, VecOp::Push(20))?
            .on_return(1, VecRet::LenOk(0))?
            .serialized_history(),
        None
    );
    assert_eq!(
        LinearizabilityTester::new(Vec::new())
            .on_invret(0, VecOp::Push(10), VecRet::PushOk)?
            .on_invoke(0, VecOp::Push(20))?
            .on_invret(1, VecOp::Len, VecRet::LenOk(2))?
            .on_invret(1, VecOp::Pop, VecRet::PopOk(Some(10)))?
            .on_invret(1, VecOp::Pop, VecRet::PopOk(Some(20)))?
            .serialized_history(),
        None
    );
    Ok(())
}

#[test]
fn vec_models_expected_semantics() {
    let mut v = vec!['A'];
    assert_eq!(v.invoke(&VecOp::Len), VecRet::LenOk(1));
    assert_eq!(v.invoke(&VecOp::Push('B')), VecRet::PushOk);
    assert_eq!(v.invoke(&VecOp::Len), VecRet::LenOk(2));
    assert_eq!(v.invoke(&VecOp::Pop), VecRet::PopOk(Some('B')));
    assert_eq!(v.invoke(&VecOp::Len), VecRet::LenOk(1));
    assert_eq!(v.invoke(&VecOp::Pop), VecRet::PopOk(Some('A')));
    assert_eq!(v.invoke(&VecOp::Len), VecRet::LenOk(0));
    assert_eq!(v.invoke(&VecOp::Pop), VecRet::PopOk(None));
    assert_eq!(v.invoke(&VecOp::Len), VecRet::LenOk(0));
}

#[test]
fn vec_accepts_valid_histories() {
    assert!(Vec::<isize>::new().is_valid_history(vec![]));
    assert!(Vec::new().is_valid_history(vec![
        (VecOp::Push(10), VecRet::PushOk),
        (VecOp::Push(20), VecRet::PushOk),
        (VecOp::Len, VecRet::LenOk(2)),
        (VecOp::Pop, VecRet::PopOk(Some(20))),
        (VecOp::Len, VecRet::LenOk(1)),
        (VecOp::Pop, VecRet::PopOk(Some(10))),
        (VecOp::Len, VecRet::LenOk(0)),
        (VecOp::Pop, VecRet::PopOk(None)),
    ]));
}

#[test]
fn vec_rejects_invalid_histories() {
    assert!(!Vec::new().is_valid_history(vec![
        (VecOp::Push(10), VecRet::PushOk),
        (VecOp::Push(20), VecRet::PushOk),
        (VecOp::Len, VecRet::LenOk(1)),
        (VecOp::Push(30), VecRet::PushOk),
    ]));
    assert!(!Vec::new().is_valid_history(vec![
        (VecOp::Push(10), VecRet::PushOk),
        (VecOp::Push(20), VecRet::PushOk),
        (VecOp::Pop, VecRet::PopOk(Some(10))),
    ]));
}

#[test]
fn write_once_register_models_expected_semantics() {
    let mut r = WORegister(None);
    assert_eq!(r.invoke(&WORegisterOp::Write('A')), WORegisterRet::WriteOk);
    assert_eq!(
        r.invoke(&WORegisterOp::Read),
        WORegisterRet::ReadOk(Some('A'))
    );
    assert_eq!(
        r.invoke(&WORegisterOp::Write('B')),
        WORegisterRet::WriteFail
    );
    assert_eq!(
        r.invoke(&WORegisterOp::Read),
        WORegisterRet::ReadOk(Some('A'))
    );
}

#[test]
fn write_once_register_accepts_valid_histories() {
    let none_char: Option<char> = None;
    assert!(WORegister(none_char).is_valid_history(vec![]));
    assert!(WORegister(none_char).is_valid_history(vec![
        (WORegisterOp::Read, WORegisterRet::ReadOk(None)),
        (WORegisterOp::Write('A'), WORegisterRet::WriteOk),
        (WORegisterOp::Read, WORegisterRet::ReadOk(Some('A'))),
        (WORegisterOp::Write('B'), WORegisterRet::WriteFail),
        (WORegisterOp::Read, WORegisterRet::ReadOk(Some('A'))),
        (WORegisterOp::Write('C'), WORegisterRet::WriteFail),
        (WORegisterOp::Read, WORegisterRet::ReadOk(Some('A'))),
    ]));
}

#[test]
fn write_once_register_rejects_invalid_histories() {
    let none_char: Option<char> = None;
    assert!(!WORegister(Some('A')).is_valid_history(vec![
        (WORegisterOp::Read, WORegisterRet::ReadOk(Some('A'))),
        (WORegisterOp::Write('B'), WORegisterRet::WriteOk),
    ]));
    assert!(!WORegister(none_char).is_valid_history(vec![
        (WORegisterOp::Read, WORegisterRet::ReadOk(Some('A'))),
        (WORegisterOp::Write('A'), WORegisterRet::WriteOk),
    ]));
    assert!(!WORegister(none_char).is_valid_history(vec![
        (WORegisterOp::Read, WORegisterRet::ReadOk(None)),
        (WORegisterOp::Write('A'), WORegisterRet::WriteOk),
        (WORegisterOp::Write('B'), WORegisterRet::WriteOk),
    ]));
}

// A register tester records operations in flight and completed ones; its length counts both.
#[test]
fn tester_len_counts_completed_and_in_flight() -> Result<(), String> {
    let mut t = LinearizabilityTester::new(Register('A'));
    assert_eq!(t.len(), 0);
    t.on_invoke(0, RegisterOp::Write('B'))?;
    assert_eq!(t.len(), 1);
    t.on_invret(1, RegisterOp::Read, RegisterRet::ReadOk('A'))?;
    assert_eq!(t.len(), 2);
    t.on_return(0, RegisterRet::WriteOk)?;
    assert_eq!(t.len(), 2);
    Ok(())
}

// An invalid history stays invalid: every later call fails, and nothing serializes.
#[test]
fn invalid_history_stays_invalid() {
    let mut t = LinearizabilityTester::new(Register('A'));
    assert!(t.on_return(3, RegisterRet::WriteOk).is_err());
    assert_eq!(
        t.on_invoke(4, RegisterOp::Read).err(),
        Some("Earlier history was invalid.".to_string())
    );
    assert_eq!(t.serialized_history(), None);
    assert!(!t.is_consistent());
}

// A linearization found is a valid sequential history of the reference object.
#[test]
fn serialized_history_is_valid_for_reference_object() -> Result<(), String> {
    let mut t = LinearizabilityTester::new(Vec::new());
    t.on_invret(0, VecOp::Push(1), VecRet::PushOk)?;
    t.on_invoke(1, VecOp::Pop)?;
    t.on_invret(2, VecOp::Len, VecRet::LenOk(1))?;
    t.on_return(1, VecRet::PopOk(Some(1)))?;
    let h = t.serialized_history().expect("linearizable");
    assert!(Vec::new().is_valid_history(h));
    assert!(t.is_consistent());
    Ok(())
}

// The default tester starts from the default reference object.
#[test]
fn default_tester_starts_empty() {
    let t: LinearizabilityTester<u8, Register<char>> = Default::default();
    assert_eq!(t.len(), 0);
    assert_eq!(t.serialized_history(), Some(vec![]));
}

// The register semantics: a write acknowledges and a read returns the last write.
#[test]
fn register_models_expected_semantics() {
    let mut r = Register('A');
    assert_eq!(r.invoke(&RegisterOp::Read), RegisterRet::ReadOk('A'));
    assert_eq!(r.invoke(&RegisterOp::Write('Z')), RegisterRet::WriteOk);
    assert_eq!(r.invoke(&RegisterOp::Read), RegisterRet::ReadOk('Z'));
    assert!(Register('A').is_valid_step(&RegisterOp::Read, &RegisterRet::ReadOk('A')));
    assert!(!Register('A').is_valid_step(&RegisterOp::Read, &RegisterRet::ReadOk('B')));
}

#[test]
fn len_counts_each_invoked_operation_once() {
    let mut t = LinearizabilityTester::new(Register('A'));
    assert_eq!(t.len(), 0);
    t.on_invoke(0, RegisterOp::Write('B')).unwrap();
    assert_eq!(t.len(), 1);
    t.on_return(0, RegisterRet::WriteOk).unwrap();
    assert_eq!(t.len(), 1);
    assert!(t.on_return(0, RegisterRet::WriteOk).is_err());
    assert_eq!(t.len(), 1);
    assert_eq!(
        t.on_invoke(1, RegisterOp::Read).err(),
        Some("Earlier history was invalid.".to_string())
    );
    assert_eq!(t.len(), 1);
    assert_eq!(t.serialized_history(), None);
}
