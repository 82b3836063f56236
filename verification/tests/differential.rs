use regex_core::backtrack::Backtrack;
use regex_core::nfa::Nfa;
use regex_core::program::{CharRanges, Inst, LookInst, OneChar, Program};

struct Dice(u64);

impl Dice {
    fn roll(&mut self, sides: usize) -> usize {
        self.0 = self.0.wrapping_mul(6364136223846793005).wrapping_add(1442695040888963407);
        ((self.0 >> 33) as usize) % sides
    }
}

fn any_inst(dice: &mut Dice, n: usize) -> Inst {
    match dice.roll(12) {
        0 | 1 => Inst::Char(OneChar { c: 'a', casei: false }),
        2 => Inst::Char(OneChar { c: 'b', casei: false }),
        3 => Inst::Char(OneChar { c: 'a', casei: true }),
        4 => Inst::Jump(dice.roll(n)),
        5 | 6 | 7 => Inst::Split(dice.roll(n), dice.roll(n)),
        8 => Inst::Save(2 + dice.roll(2)),
        9 => Inst::Ranges(CharRanges { ranges: vec![('a', 'b')], casei: false }),
        10 => Inst::EmptyLook(match dice.roll(6) {
            0 => LookInst::StartLine,
            1 => LookInst::EndLine,
            2 => LookInst::StartText,
            3 => LookInst::EndText,
            4 => LookInst::WordBoundary,
            _ => LookInst::NotWordBoundary,
        }),
        _ => Inst::Match,
    }
}

fn any_program(dice: &mut Dice) -> Option<Program> {
    let n = 3 + dice.roll(8);
    let mut insts = vec![Inst::Save(0)];
    for _ in 0..n - 3 {
        insts.push(any_inst(dice, n));
    }
    insts.push(Inst::Save(1));
    insts.push(Inst::Match);
    let groups = regex_core::program::num_captures(&insts);
    Program::new("", insts, vec![None; groups]).ok()
}

fn any_text(dice: &mut Dice) -> String {
    let len = dice.roll(6);
    (0..len)
        .map(|_| match dice.roll(4) {
            0 => 'a',
            1 => 'b',
            2 => ' ',
            _ => '\u{e9}',
        })
        .collect()
}

#[test]
fn the_machines_agree_on_programs_of_any_shape() {
    let mut dice = Dice(2026);
    let mut programs = 0;
    let mut matches = 0;
    for _ in 0..4000 {
        let prog = match any_program(&mut dice) {
            Some(prog) => prog,
            None => continue,
        };
        programs += 1;
        for _ in 0..6 {
            let text = any_text(&mut dice);
            let mut none: Vec<Option<usize>> = vec![];
            let nfa = Nfa::run(&prog, &mut none, &text, 0);
            let back = Backtrack::exec(&prog, &mut none, &text, 0);
            assert_eq!(nfa, back, "{:?} on {:?}", prog.insts, text);
            let mut nfa_caps = prog.alloc_captures();
            let mut back_caps = prog.alloc_captures();
            assert_eq!(Nfa::run(&prog, &mut nfa_caps, &text, 0), nfa);
            assert_eq!(Backtrack::exec(&prog, &mut back_caps, &text, 0), nfa);
            assert_eq!(nfa_caps, back_caps, "{:?} on {:?}", prog.insts, text);
            if nfa {
                matches += 1;
                for slot in nfa_caps.iter().flatten() {
                    assert!(text.is_char_boundary(*slot));
                }
            } else {
                assert!(nfa_caps.iter().all(|slot| slot.is_none()));
            }
        }
    }
    assert!(programs > 1000);
    assert!(matches > 1000);
}
