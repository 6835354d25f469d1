use alkoholiq::codegen::Codegen;
use alkoholiq::instruction::Instruction;
use alkoholiq::instruction::Instruction::{Assign, Add, Case, Compare, Dec, DecBy, Div, End, IfEqual, IfEqualConst, IfNotEqual, Inc, IncBy, Match, Mul, Pop, Print, PrintC, PrintMsg, Push, Raw, Read, Sub, UntilEqual, WhileNotZero};
use alkoholiq::interpreter::Interpreter;
use alkoholiq::optim::remove_non_brainfuck;

fn assert_eq_bf(code: Vec<Instruction>, expected: &str) {
    let bf = Codegen::new_test(code).codegen().unwrap();

    // Interpret the code; at every instruction separator the
    // interpreter checks that all temp cells are zero.
    for input in ["", "A", "b", "11", "12", "21"] {
        let stdin: Vec<u8> = input.as_bytes().to_vec();
        let interpret = Interpreter::new();
        let result = interpret.run(&bf, &stdin);
        assert!(result.is_ok());
    }

    let bf = remove_non_brainfuck(bf); // To remove instruction separators
    assert_eq!(bf, expected);
}

#[test]
fn basics() {
    let code = vec![
        Assign("asdf".to_string(), 10),
        Dec("another".to_string()),
        Inc("asdf".to_string()),
        DecBy("another".to_string(), 5),
        Instruction::Copy {
            a: "asdf".to_string(),
            b: "newasdf".to_string(),
        },
    ];
    assert_eq_bf(code, "[-]++++++++++>-<+>----->[-]<<[-<+>>>+<<]<[->+<]>>>");

    let code = vec![
        Read("a".to_string()),
        Inc("a".to_string()),
        Print("a".to_string()),
        IncBy("b".to_string(), b'Z'),
        Print("b".to_string()),
    ];
    assert_eq_bf(code, "[-],+.>++++++++++++++++++++++++++++++++++++++++++++++++++++++++++++++++++++++++++++++++++++++++++.");

    // This should error
    let code = vec![Read("1".to_string())];
    assert!(Codegen::new(code).codegen().is_err());

    let code = vec![
        Read("a".to_string()),
        Assign("b".to_string(), 32),
        Add {
            a: "a".to_string(),
            b: "b".to_string(),
        },
        Print("a".to_string()),
    ];
    assert_eq_bf(
        code,
        "[-],>[-]++++++++++++++++++++++++++++++++[-<<+>+>]<<[->>+<<]>.",
    );

    let code = vec![
        Read("a".to_string()),
        Assign("b".to_string(), 32),
        Sub {
            a: "a".to_string(),
            b: "b".to_string(),
        },
        Print("a".to_string()),
    ];
    assert_eq_bf(
        code,
        "[-],>[-]++++++++++++++++++++++++++++++++[-<<+>->]<<[->>+<<]>.",
    );

    // This should error
    let code = vec![End];
    assert!(Codegen::new(code).codegen().is_err());

    // This should error
    let code = vec![
        IfEqual {
            a: "a".to_string(),
            b: "b".to_string(),
        },
        End,
    ];
    assert!(Codegen::new(code).codegen().is_err());

    let code = vec![
        Read("a".to_string()),
        WhileNotZero("a".to_string()),
        Dec("a".to_string()),
        Inc("b".to_string()),
        Print("a".to_string()),
        Raw("ASDF".to_string()),
        End,
        Print("b".to_string()),
    ];
    assert_eq_bf(code, "[-],[->+<.]>.");

    // If input is not A, print it twice
    let code = vec![
        Read("a".to_string()),
        Assign("b".to_string(), b'A'),
        IfNotEqual {
            a: "a".to_string(),
            b: "b".to_string(),
        },
        Print("a".to_string()),
        End,
        Print("a".to_string()),
    ];
    assert_eq_bf(
        code,
        "[-],>[-]+++++++++++++++++++++++++++++++++++++++++++++++++++++++++++++++++[-<<+>->]<<[->>+<<]><<<[-]>>>[-<+<<+>>>]<[->+<]<<[[-]>>>>[-<<+>+>]<<[->>+<<]>.>[-<<+>->]<<[->>+<<]><<<]>>>>[-<<+>+>]<<[->>+<<]>.",
    );

    let code = vec![
        Read("a".to_string()),
        Assign("b".to_string(), b'A'),
        UntilEqual {
            a: "a".to_string(),
            b: "b".to_string(),
        },
        Dec("a".to_string()),
        Print("a".to_string()),
        End,
    ];
    assert_eq_bf(
        code,
       "[-],>[-]+++++++++++++++++++++++++++++++++++++++++++++++++++++++++++++++++[-<<+>->]<<[->>+<<]>[>[-<<+>+>]<<[->>+<<]>-.>[-<<+>->]<<[->>+<<]>]>[-<<+>+>]<<[->>+<<]>"
    );

    // If input is A, set it to B and print twice, else print it once
    let code = vec![
        Read("a".to_string()),
        Assign("b".to_string(), b'A'),
        IfEqual {
            a: "a".to_string(),
            b: "b".to_string(),
        },
        Assign("a".to_string(), b'B'),
        Print("a".to_string()),
        End,
        Print("a".to_string()),
    ];
    assert_eq_bf(
        code,
        "[-],>[-]+++++++++++++++++++++++++++++++++++++++++++++++++++++++++++++++++<<<<[-]+>>>>[-<<+>->]<<[->>+<<]><<<<[-]>>>>[-<+<<<+>>>>]<[->+<]<<<[>[-]<[-]]>>>>>[-<<+>+>]<<[->>+<<]><<<[[-]>>>[-]++++++++++++++++++++++++++++++++++++++++++++++++++++++++++++++++++.<<<[-]]>>>.",
    );

    let code = vec![PrintMsg("Hello!".to_string())];
    assert_eq_bf(
        code,
        "<[-]++++++++++++++++++++++++++++++++++++++++++++++++++++++++++++++++++++++++.+++++++++++++++++++++++++++++.+++++++..+++.------------------------------------------------------------------------------.[-]",
    );

    // If input is A, print BB, else print input
    let code = vec![
        Read("a".to_string()),
        IfEqualConst {
            a: "a".to_string(),
            b: b'A',
        },
        Assign("a".to_string(), b'B'),
        Print("a".to_string()),
        End,
        Print("a".to_string()),
    ];
    assert_eq_bf(
        code,
        "[-],<<<[-]+<[-]>>>>-----------------------------------------------------------------[<<<[-]<[-]>>>>[-<<<<+>>>>]]<<<<[->>>>+<<<<]>>>>+++++++++++++++++++++++++++++++++++++++++++++++++++++++++++++++++<<<[[-]>>>[-]++++++++++++++++++++++++++++++++++++++++++++++++++++++++++++++++++.<<<[-]]>>>.",
    );

    let code = vec![
        Read("a".to_string()),
        Read("b".to_string()),
        Compare {
            a: "a".to_string(),
            b: "b".to_string(),
            res: "res".to_string(),
        },
        IfEqualConst {
            a: "res".to_string(),
            b: 0,
        },
        PrintMsg("=".to_string()),
        End,
        IfEqualConst {
            a: "res".to_string(),
            b: 1,
        },
        PrintMsg("<".to_string()),
        End,
        IfEqualConst {
            a: "res".to_string(),
            b: 2,
        },
        PrintMsg(">".to_string()),
        End,
    ];
    assert_eq_bf(
        code,
      "[-],>[-],>[-]<[-<<+>->]<<[->>+<<]><<<[-]>>>[-<+<<+>>>]<[->+<]<<[[-]>>>>[-<<+>+>]<<[->>+<<]><<[-]>[-]+[<+>>>-<-<<<[-]+<[-]>>>>[<<<[-]<[-]>>>>[-<<<<+>>>>]]<<<<[->>>>+<<<<]>>>><<<[[-]>>>>>[-]+<<<[-]<<[-]][-]+<[-]>>>>>[<<<<[-]<[-]>>>>>[-<<<<<+>>>>>]]<<<<<[->>>>>+<<<<<]>>>>><<<<[[-]>>>>>[-]++<<<[-]<<[-]]>>]<[->>+>+<<<]>>>[-<<+>->]<<[->>+<<]><<<]>>>>[-<<+>+>]<<[->>+<<]><<<[-]+<[-]>>>>>>[<<<<<[-]<[-]>>>>>>[-<<<<<<+>>>>>>]]<<<<<<[->>>>>>+<<<<<<]>>>>>><<<<<[[-]>>[-]+++++++++++++++++++++++++++++++++++++++++++++++++++++++++++++.[-]<<[-]][-]+<[-]>>>>>>-[<<<<<[-]<[-]>>>>>>[-<<<<<<+>>>>>>]]<<<<<<[->>>>>>+<<<<<<]>>>>>>+<<<<<[[-]>>[-]++++++++++++++++++++++++++++++++++++++++++++++++++++++++++++.[-]<<[-]][-]+<[-]>>>>>>--[<<<<<[-]<[-]>>>>>>[-<<<<<<+>>>>>>]]<<<<<<[->>>>>>+<<<<<<]>>>>>>++<<<<<[[-]>>[-]++++++++++++++++++++++++++++++++++++++++++++++++++++++++++++++.[-]<<[-]]"
    );

    // Should print D
    let code = vec![
        Assign("a".to_string(), 17),
        Assign("b".to_string(), 4),
        Mul {
            a: "a".to_string(),
            b: "b".to_string(),
        },
        Print("a".to_string()),
    ];
    assert_eq_bf(
        code,
        "[-]+++++++++++++++++>[-]++++<<<<[-]>>>>[-<<+<<+>>>>]<<[->>+<<]<<[->>>[-<+<<<+>>>>]<[->+<]<<<>]>>>[-]<<<<[->>>>+<<<<]>>>>.",
    );

    // Should print 4 and 1 in ascii
    let code = vec![
        Assign("a".to_string(), 9),
        Assign("b".to_string(), 2),
        Div {
            a: "a".to_string(),
            b: "b".to_string(),
            remainder: "r".to_string(),
            quotient: "q".to_string(),
        },
        Print("q".to_string()),
        Print("r".to_string()),
    ];
    assert_eq_bf(code, "[-]+++++++++>[-]++<<<<<<<<<<<[-]>>>>>>>>>>[-<+<<<<<<<<<+>>>>>>>>>>]<[->+<]<<<<<<<<<>[-]>>>>>>>>>>[-<<+<<<<<<<<+>>>>>>>>>>]<<[->>+<<]<<<<<<<<>>>>>>>>>>>[-]>[-]<<<<<<<<<<<[-]+[>[-]>>>>>>>>[-<<+>->]<<[->>+<<]><<<[-]>>>[-<+<<+>>>]<[->+<]<<[[-]>>>>[-<<+>+>]<<[->>+<<]><<[-]>[-]+[<+>>>-<-<<<[-]+<[-]>>>>[<<<[-]<[-]>>>>[-<<<<+>>>>]]<<<<[->>>>+<<<<]>>>><<<[[-]<<<<[-]+>>>>>>[-]<<[-]][-]+<[-]>>>>>[<<<<[-]<[-]>>>>>[-<<<<<+>>>>>]]<<<<<[->>>>>+<<<<<]>>>>><<<<[[-]<<<<[-]++>>>>>>[-]<<[-]]>>]<[->>+>+<<<]>>>[-<<+>->]<<[->>+<<]><<<]>>>>[-<<+>+>]<<[->>+<<]><<<<<<<->>>>[-]<<<<[->>>>>>+<<+<<<<]>>>>>>[-<<<<<<+>>>>>>]<<<<<<+>>>>[[-]>>>>[-<<+>->]<<[->>+<<]>>>>+<<<<<<][-]<<<<-->>>>[-]<<<<[->>>>>>+<<+<<<<]>>>>>>[-<<<<<<+>>>>>>]<<<<<<++>>>>[[-]<<<<<[-]>>>>>][-]<<<<<]>[-]>>>>>>>>>[-]<<[->>+<<][-]<<<<<<<<<<[->>>>>>>>>>+<<<<<<<<<<]>>>>>>>>>>>[-]<<<<<<<<<<[->>>>>>>>>>+<<<<<<<<<<]>>>>>>>>>>>>.<.");

    let code = vec![
        // 9 2 0
        Assign("a".to_string(), 9),
        Assign("b".to_string(), 2),
        Assign("c".to_string(), 0),
        Push("a".to_string()),
        Push("b".to_string()),
        Pop("c".to_string()),
        Pop("b".to_string()),
        // Mem should look like: 9 9 2, ptr at second 9
    ];
    assert_eq_bf(code, "[-]+++++++++>[-]++>[-]<<<<[-]>>[-<+<+>>]<[->+<]<[->>>>>>>[>>]>+<<<[<<]<<<<<]>>>>>>>[>>]+<<[<<]<<<<<[-]>>>[-<<+<+>>>]<<[->>+<<]<[->>>>>>>[>>]>+<<<[<<]<<<<<]>>>>>>>[>>]+<<[<<]<<>[-]>>>[>>]<[-<[<<]<+>>>[>>]<]<[-]<<[<<]<<[-]>>>>[>>]<[-<[<<]<<+>>>>[>>]<]<[-]<<[<<]<<");

    // This should reverse the two entered values using the stack
    let code = vec![
        Read("a".to_string()),
        Read("b".to_string()),
        Push("a".to_string()),
        Push("b".to_string()),
        Pop("a".to_string()),
        Pop("b".to_string()),
        Print("a".to_string()),
        Print("b".to_string()),
    ];
    assert_eq_bf(code, "[-],>[-],<<<[-]>>[-<+<+>>]<[->+<]<[->>>>>>[>>]>+<<<[<<]<<<<]>>>>>>[>>]+<<[<<]<<<<[-]>>>[-<<+<+>>>]<<[->>+<<]<[->>>>>>[>>]>+<<<[<<]<<<<]>>>>>>[>>]+<<[<<]<<[-]>>>>[>>]<[-<[<<]<<+>>>>[>>]<]<[-]<<[<<]<<>[-]>>>[>>]<[-<[<<]<+>>>[>>]<]<[-]<<[<<]<<.>.");

    let code = vec![
        Read("a".to_string()),
        Assign("b".to_string(), b'-'),

        Match("a".to_string(), vec![b'a', b'b']),

        PrintMsg("C".to_string()), // default

        Case(), // b
        PrintMsg("B".to_string()),

        Case(), // a
        PrintMsg("A".to_string()),

        End,

        Print("b".to_string()), // Here to check the pointer is in the correct place
    ];
    assert_eq_bf(code, "[-],>[-]+++++++++++++++++++++++++++++++++++++++++++++<<<[-]>>[-<+<+>>]<[->+<]<>[-]+<-------------------------------------------------------------------------------------------------[-[[-]>-[-]+++++++++++++++++++++++++++++++++++++++++++++++++++++++++++++++++++.[-]<]>[-[-]++++++++++++++++++++++++++++++++++++++++++++++++++++++++++++++++++.[-]]<]>[-[-]+++++++++++++++++++++++++++++++++++++++++++++++++++++++++++++++++.[-]]>>.");
}
