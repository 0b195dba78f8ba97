use cs110l::inferior::{
    align_addr_to_word, patch_word, plan_resume, plan_write_byte, rearm_after_step, BreakPoint, Breakpoints,
    ResumePlan, Status, SIGTRAP, TRAP_INSTRUCTION,
};

#[test]
fn addresses_round_down_to_their_word() {
    let w = std::mem::size_of::<usize>();
    assert_eq!(align_addr_to_word(0), 0);
    assert_eq!(align_addr_to_word(w), w);
    assert_eq!(align_addr_to_word(0x1000 + w - 1), 0x1000);
    assert_eq!(align_addr_to_word(0x1003), 0x1000);
    assert_eq!(align_addr_to_word(usize::MAX), usize::MAX - (w - 1));
}

#[test]
fn patching_a_byte_returns_the_old_byte() {
    let word: u64 = 0x1122_3344_5566_7788;
    let (patched, orig) = patch_word(word, 0, TRAP_INSTRUCTION);
    assert_eq!(orig, 0x88);
    assert_eq!(patched, 0x1122_3344_5566_77cc);
    let (patched, orig) = patch_word(word, 7, 0x00);
    assert_eq!(orig, 0x11);
    assert_eq!(patched, 0x0022_3344_5566_7788);
    let (patched, orig) = patch_word(word, 3, 0xab);
    assert_eq!(orig, 0x55);
    assert_eq!(patched, 0x1122_3344_ab66_7788);
}

#[test]
fn patching_back_the_old_byte_restores_the_word() {
    let word: u64 = 0xdead_beef_0bad_f00d;
    for off in 0..8 {
        let (patched, orig) = patch_word(word, off, TRAP_INSTRUCTION);
        let (restored, trap) = patch_word(patched, off, orig);
        assert_eq!(trap, TRAP_INSTRUCTION);
        assert_eq!(restored, word);
        let (replanted, back) = patch_word(restored, off, TRAP_INSTRUCTION);
        assert_eq!(back, orig);
        assert_eq!(replanted, patched);
    }
}

#[test]
fn breakpoints_remember_the_replaced_byte() {
    let mut bps = Breakpoints::new();
    assert_eq!(bps.get(0x400), None);
    bps.record(0x400, 0x55);
    assert_eq!(bps.get(0x400), Some(BreakPoint { addr: 0x400, val: 0x55 }));
    bps.record(0x400, 0xcc);
    assert_eq!(bps.get(0x400), Some(BreakPoint { addr: 0x400, val: 0xcc }));
    assert_eq!(bps.get(0x401), None);
}

#[test]
fn resuming_steps_over_a_breakpoint_just_hit() {
    let mut bps = Breakpoints::new();
    bps.record(0x401000, 0x48);
    assert_eq!(
        plan_resume(&bps, 0x401001),
        ResumePlan::StepOverBreakpoint { addr: 0x401000, orig: 0x48 }
    );
    assert_eq!(plan_resume(&bps, 0x401000), ResumePlan::Continue);
    assert_eq!(plan_resume(&bps, 1), ResumePlan::Continue);
}

#[test]
fn breakpoint_is_rearmed_only_after_a_trap_stop() {
    assert!(rearm_after_step(&Status::Stopped(SIGTRAP, 0x401001)));
    assert!(!rearm_after_step(&Status::Stopped(11, 0x401001)));
    assert!(!rearm_after_step(&Status::Exited(0)));
    assert!(!rearm_after_step(&Status::Signaled(SIGTRAP)));
}

#[test]
fn a_byte_write_patches_the_word_that_holds_it() {
    let w = std::mem::size_of::<usize>();
    let addr: usize = 0x401003;
    let word: u64 = 0x1122_3344_5566_7788;
    let (aligned, updated, orig) = plan_write_byte(addr, word, 0xCC);
    assert_eq!(aligned, addr - addr % w);
    assert_eq!(aligned, align_addr_to_word(addr));
    assert_eq!(orig, 0x55);
    assert_eq!(updated, 0x1122_3344_CC66_7788);
    let (_, restored, back) = plan_write_byte(addr, updated, orig);
    assert_eq!(restored, word);
    assert_eq!(back, 0xCC);
}
