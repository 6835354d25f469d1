use alkoholiq::codegen::Codegen;
use alkoholiq::interpreter::Interpreter;
use alkoholiq::optim::optimize;
use alkoholiq::parser::parse;

/// Compile LIR, run both the raw and the optimized brainfuck against
/// the input, and demand the same expected output from both.
fn compile_and_run(src: &str, input: &str, expected: &str) {
    let parsed = parse(src).expect("Failed to parse LIR");
    let bf = Codegen::new(parsed).codegen().expect("Failed to generate BF");
    let bf_optimized = optimize(bf.clone());
    for code in [bf, bf_optimized] {
        let stdin: Vec<u8> = input.as_bytes().to_vec();
        let out = Interpreter::new().run(&code, &stdin).unwrap();
        assert_eq!(String::from_utf8(out).unwrap(), expected);
    }
}

#[test]
fn scenario_echo() {
    let src = "read a
while_nz a
    print a
    read a
end";
    compile_and_run(src, "Hi\n", "Hi\n");
}

#[test]
fn scenario_string_reverse() {
    let src = "read c
while_nz c
    push c
    inc n
    read c
end
while_nz n
    pop c
    print c
    dec n
end";
    compile_and_run(src, "Hello World!", "!dlroW olleH");
}

#[test]
fn scenario_match() {
    let src = "read a
match a ['A','B']
    print_msg \"C\"
case
    print_msg \"B\"
case
    print_msg \"A\"
end";
    compile_and_run(src, "A", "A");
    compile_and_run(src, "B", "B");
    compile_and_run(src, "Z", "C");
}

#[test]
fn scenario_compare() {
    let src = "read a
read b
cmp a b r
if_eq_c r 0
    print_msg \"=\"
end
if_eq_c r 1
    print_msg \"<\"
end
if_eq_c r 2
    print_msg \">\"
end";
    compile_and_run(src, "AA", "=");
    compile_and_run(src, "AB", "<");
    compile_and_run(src, "BA", ">");
}
