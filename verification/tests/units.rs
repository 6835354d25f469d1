use alkoholiq::analysis::{AnalysisError, InstructionsAnalysis};
use alkoholiq::ast::Expression;
use alkoholiq::codegen::{Codegen, CodegenError, InvariantViolation};
use alkoholiq::instruction::Instruction;
use alkoholiq::instruction::Instruction::{Assign, Add, Case, Compare, Dec, DecBy, Div, End, IfEqual, IfEqualConst, IfNotEqual, Inc, IncBy, Match, Mul, Pop, Print, PrintC, PrintMsg, Push, Raw, Read, Sub, UntilEqual, WhileNotZero};
use alkoholiq::interpreter::{Fault, Interpreter};
use alkoholiq::optim::{optimize, optimize_no_effect, remove_non_brainfuck, remove_redundant_zeros};
use alkoholiq::parser::{parse, ParseError};
use alkoholiq::tokens::{IndexedToken, Token};
use alkoholiq::utils::repeat;

#[test]
fn analyzer_accepts_iff_blocks_balance() {
    // Balanced openers and closers: accepted.
    let ok = vec![
        Read("a".to_string()),
        WhileNotZero("a".to_string()),
        Dec("a".to_string()),
        End,
    ];
    assert!(InstructionsAnalysis::new(&ok).is_ok());

    // An opener without its end: rejected.
    let open_only = vec![Read("a".to_string()), WhileNotZero("a".to_string())];
    assert_eq!(
        InstructionsAnalysis::new(&open_only).unwrap_err(),
        AnalysisError::UnevenAmountOfBlocks
    );

    // An end that closes nothing, even though the counts match.
    let dip = vec![End, WhileNotZero("a".to_string())];
    assert_eq!(
        InstructionsAnalysis::new(&dip).unwrap_err(),
        AnalysisError::UnevenAmountOfBlocks
    );
}

#[test]
fn analyzer_variable_rules() {
    // Use before any write.
    let unwritten = vec![Print("a".to_string())];
    assert_eq!(
        InstructionsAnalysis::new(&unwritten).unwrap_err(),
        AnalysisError::VariableMustBeAssigned { v: "a".to_string() }
    );

    // A name that starts with a digit.
    let bad = vec![Read("1x".to_string())];
    assert_eq!(
        InstructionsAnalysis::new(&bad).unwrap_err(),
        AnalysisError::InvalidVariableName { v: "1x".to_string() }
    );

    // First-appearance order gives the cell indices.
    let list = vec![
        Read("a".to_string()),
        Read("b".to_string()),
        Instruction::Copy {
            a: "a".to_string(),
            b: "c".to_string(),
        },
    ];
    let analysis = InstructionsAnalysis::new(&list).unwrap();
    assert_eq!(analysis.variable_count(), 3);
    assert_eq!(analysis.index_of(&"a".to_string()), Some(0));
    assert_eq!(analysis.index_of(&"b".to_string()), Some(1));
    assert_eq!(analysis.index_of(&"c".to_string()), Some(2));
    assert_eq!(analysis.index_of(&"d".to_string()), None);
}

#[test]
fn codegen_rejects_bad_shapes() {
    // Identical operands where the lowering needs them distinct.
    let same = vec![Read("a".to_string()), Add {
        a: "a".to_string(),
        b: "a".to_string(),
    }];
    assert_eq!(
        Codegen::new(same).codegen().unwrap_err(),
        CodegenError::InvariantViolation(InvariantViolation::OperandsMustDiffer)
    );

    // Match keys out of order.
    let unsorted = vec![
        Read("a".to_string()),
        Match("a".to_string(), vec![5, 3]),
        Case(),
        Case(),
        End,
    ];
    assert_eq!(
        Codegen::new(unsorted).codegen().unwrap_err(),
        CodegenError::InvariantViolation(InvariantViolation::BadMatchKeys)
    );

    // A case marker outside any match.
    let stray = vec![Read("a".to_string()), Case()];
    assert_eq!(
        Codegen::new(stray).codegen().unwrap_err(),
        CodegenError::InvariantViolation(InvariantViolation::MisplacedCase)
    );

    // A match closed before every key body was supplied.
    let unfinished = vec![
        Read("a".to_string()),
        Match("a".to_string(), vec![1, 2]),
        Case(),
        End,
    ];
    assert_eq!(
        Codegen::new(unfinished).codegen().unwrap_err(),
        CodegenError::InvariantViolation(InvariantViolation::UnfinishedMatch)
    );
}

#[test]
fn parser_reads_operand_forms() {
    // Integers, char literals and escapes in one program.
    let src = "set a 65\nset b 'B'\nset c '\\n'\ninc_by a 2";
    let instrs = parse(src).unwrap();
    assert_eq!(
        instrs,
        vec![
            Assign("a".to_string(), 65),
            Assign("b".to_string(), 66),
            Assign("c".to_string(), 10),
            IncBy("a".to_string(), 2),
        ]
    );

    // Strings stay raw; print_msg resolves escapes at emission.
    let instrs = parse("print_msg \"hi\\nthere\"").unwrap();
    assert_eq!(instrs, vec![PrintMsg("hi\\nthere".to_string())]);

    // Match lists take commas or plain spaces.
    let instrs = parse("read a\nmatch a [1, 2 3]\ncase\ncase\ncase\nend").unwrap();
    assert_eq!(
        instrs,
        vec![
            Read("a".to_string()),
            Match("a".to_string(), vec![1, 2, 3]),
            Case(),
            Case(),
            Case(),
            End,
        ]
    );

    // Raw brainfuck passes through.
    let instrs = parse("raw \"+->><<-\"").unwrap();
    assert_eq!(instrs, vec![Raw("+->><<-".to_string())]);
}

#[test]
fn parser_rejects_malformed_input() {
    // An unknown keyword.
    assert!(matches!(
        parse("frobnicate a"),
        Err(ParseError::InvalidInstruction(_))
    ));
    // A byte operand out of range.
    assert!(parse("set a 256").is_err());
    // A missing operand.
    assert!(parse("copy a").is_err());
    // An unterminated string.
    assert!(parse("print_msg \"oops").is_err());
    // Comments and blank lines alone are fine.
    assert_eq!(parse("// nothing here\n\n").unwrap(), vec![]);
}

#[test]
fn optimizer_rules() {
    // Cancelling pairs vanish, through repeated passes.
    assert_eq!(optimize_no_effect("><".to_string()), "");
    assert_eq!(optimize_no_effect("+<>-".to_string()), "");
    assert_eq!(optimize_no_effect("a+-b".to_string()), "ab".to_string());
    assert_eq!(optimize_no_effect("-+".to_string()), "");
    assert_eq!(
        optimize_no_effect("[-][-]".to_string()),
        "[-]".to_string()
    );
    // Nested cancellations need more than one pass.
    assert_eq!(optimize_no_effect(">+-<".to_string()), "");

    // Stripping keeps only the eight commands.
    assert_eq!(
        remove_non_brainfuck("a+b-c#d[e]f.g,h<i>".to_string()),
        "+-[].,<>".to_string()
    );

    // The composition strips first, then cancels across stripped text.
    assert_eq!(optimize("+ comment -".to_string()), "".to_string());
}

#[test]
fn redundant_zero_clears_are_dropped() {
    // A clear of a cell nothing has touched, at depth zero, is dropped.
    assert_eq!(remove_redundant_zeros("[-]>".to_string()), ">");
    assert_eq!(remove_redundant_zeros(">+<[-]".to_string()), ">+<");
    // A clear of a used cell stays, and the segment rule puts one
    // more after the final segment when its cell was touched; that
    // trailing clear is inert, since nothing runs after it.
    assert_eq!(remove_redundant_zeros("[-]+".to_string()), "+[-]");
    assert_eq!(remove_redundant_zeros("+[-]".to_string()), "+[-]");
    // The kept and added clears never change what a program prints.
    let bf = "+[-]+.".to_string();
    let shrunk = remove_redundant_zeros(bf.clone());
    let a = Interpreter::new().run(&bf, &Vec::new()).unwrap();
    let b = Interpreter::new().run(&shrunk, &Vec::new()).unwrap();
    assert_eq!(a, b);
}

#[test]
fn optimizer_preserves_behaviour() {
    // A program whose text holds every rewrite pattern.
    let bf = "++><+-[-][-]-+.".to_string();
    let shrunk = optimize(bf.clone());
    let a = Interpreter::new().run(&bf, &Vec::new()).unwrap();
    let b = Interpreter::new().run(&shrunk, &Vec::new()).unwrap();
    assert_eq!(a, b);
    assert_eq!(a, vec![0]);
}

#[test]
fn interpreter_behaviour() {
    // EOF on `,` stores zero and execution continues.
    let out = Interpreter::new().run(",+.", &Vec::new()).unwrap();
    assert_eq!(out, vec![1]);

    // Input bytes arrive in order.
    let out = Interpreter::new()
        .run(",.,.", &vec![7, 9])
        .unwrap();
    assert_eq!(out, vec![7, 9]);

    // Cells wrap at 256.
    let out = Interpreter::new().run("-.", &Vec::new()).unwrap();
    assert_eq!(out, vec![255]);

    // The head wraps around the tape's left edge.
    let out = Interpreter::new().run("<+.", &Vec::new()).unwrap();
    assert_eq!(out, vec![1]);

    // Unbalanced brackets are refused.
    assert_eq!(
        Interpreter::new().run("[[", &Vec::new()).unwrap_err(),
        Fault::UnevenBrackets
    );

    // A sentinel over a dirty temp cell aborts the run.
    assert_eq!(
        Interpreter::new().run("<+#", &Vec::new()).unwrap_err(),
        Fault::SentinelFailure
    );
    // A sentinel over clean temps is inert.
    assert!(Interpreter::new().run("+#.", &Vec::new()).is_ok());
}

#[test]
fn printc_prints_decimal() {
    // 217 prints as three ASCII digits; leading zeros are elided.
    let program = vec![Assign("a".to_string(), 217), PrintC("a".to_string())];
    let bf = Codegen::new(program).codegen().unwrap();
    let out = Interpreter::new().run(&bf, &Vec::new()).unwrap();
    assert_eq!(String::from_utf8(out).unwrap(), "217");

    let program = vec![Assign("a".to_string(), 40), PrintC("a".to_string())];
    let bf = Codegen::new(program).codegen().unwrap();
    let out = Interpreter::new().run(&bf, &Vec::new()).unwrap();
    assert_eq!(String::from_utf8(out).unwrap(), "4");
}

#[test]
fn front_end_model() {
    assert_eq!(Expression::Number(7).as_number(), Some(7));
    assert_eq!(Expression::Path("x".to_string()).as_number(), None);
    assert_eq!(Expression::Number(7).size(), 1);
    assert_eq!(
        Expression::Array(vec![Expression::Number(1), Expression::Number(2)]).size(),
        2
    );
    assert_eq!(Expression::Path("x".to_string()).size(), 0);

    let t = Token::Identifier("x".to_string());
    assert!(t.is_identifier());
    assert!(!t.is_literal());
    assert_eq!(t.inner_string(), Some("x".to_string()));
    assert!(Token::Integer(3).is_literal());
    assert_eq!(Token::Assign.inner_string(), None);

    let hidden = IndexedToken::new_hidden(Token::True);
    assert_eq!(hidden.token, Token::True);
    assert_eq!(hidden.line_number, 0);

    assert_eq!(repeat(5u8, 3).len(), 3);
}
