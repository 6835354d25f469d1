use alkoholiq::codegen::Codegen;
use alkoholiq::interpreter::Interpreter;
use alkoholiq::optim::optimize;
use alkoholiq::parser::parse;

#[test]
fn run_fibonacci_sequence() {
    let code = "set f_n-1 1\n
set f_n-2 1\n
set n 13\n
print f_n-1\n
print f_n-2\n
dec_by n 2\n
while_nz n\n
    copy f_n-1 f_n\n
    add f_n f_n-2\n
    print f_n\n
    copy f_n-2 f_n-1\n
    copy f_n f_n-2\n
    dec n\n
end";

    let parsed = parse(code).expect("Failed to parse LIR");
    let bf = Codegen::new_test(parsed)
        .codegen()
        .expect("Failed to generate BF");
    let bf_optimized = optimize(bf.clone());

    // Same test for optimized and unoptimized versions
    for code in [bf, bf_optimized] {
        let stdin: Vec<u8> = Vec::new();
        let interpret = Interpreter::new();
        let stdout = interpret.run(&code, &stdin).unwrap();

        assert_eq!(
            stdout.as_slice(),
            [1, 1, 2, 3, 5, 8, 13, 21, 34, 55, 89, 144, 233]
        );
    }

    let code = "set f_n-1 1
set f_n-2 1
set n 13

printc f_n-1
print_msg ' '
printc f_n-2
print_msg ' '

dec_by n 2

while_nz n
    copy f_n-1 f_n
    add f_n f_n-2

    // Printc will pretty print numbers
    printc f_n

    if_neq n 1
        print_msg ' '
    end

    copy f_n-2 f_n-1
    copy f_n f_n-2

    dec n
end
print_msg '\\n'";

    let parsed = parse(code).expect("Failed to parse LIR");
    let bf = Codegen::new_test(parsed)
        .codegen()
        .expect("Failed to generate BF");
    let bf_optimized = optimize(bf.clone());

    // Same test for optimized and unoptimized versions
    for code in [bf, bf_optimized] {
        let stdin: Vec<u8> = Vec::new();
        let interpret = Interpreter::new();
        let stdout = interpret.run(&code, &stdin).unwrap();

        assert_eq!(
            String::from_utf8(stdout.clone()).unwrap(),
            "1 1 2 3 5 8 13 21 34 55 89 144 233\n"
        );
    }
}

#[test]
fn test_rot13() {
    let code = "\
        // Set some variables
set A 64
set Z 91
set a 96
set z 123

read char
while_nz char
    // Between A and Z
    compare char A res
    if_eq res 2
        compare char Z res
        if_eq res 1
            // Add 13
            dec_by char 13

            // Check for underflow
            compare char A res
            if_neq res 2
                // Wrap around
                inc_by char 26
            end
        end
    end


    // Between a and z
    compare char a res
    if_eq res 2
        compare char z res
        if_eq res 1
            // Add 13
            dec_by char 13

            // Check for underflow
            compare char a res
            if_neq res 2
                // Wrap around
                inc_by char 26
            end
        end
    end

    print char

    read char
end";

    let parsed = parse(code).expect("Failed to parse LIR");
    let bf = Codegen::new_test(parsed)
        .codegen()
        .expect("Failed to generate BF");
    let bf_optimized = optimize(bf.clone());

    // Same test for optimized and unoptimized versions
    for code in [bf, bf_optimized] {
        let stdin: Vec<u8> =
            "0123456789:;<=>?@ABCDEFGHIJKLMNOPQRSTUVWXYZ[]^_abcdefghijklmnopqrstuvwxyz"
                .as_bytes()
                .to_vec();
        let interpret = Interpreter::new();
        let stdout = interpret.run(&code, &stdin).unwrap();

        assert_eq!(
            String::from_utf8(stdout.clone()).unwrap(),
            "0123456789:;<=>?@NOPQRSTUVWXYZABCDEFGHIJKLM[]^_nopqrstuvwxyzabcdefghijklm"
        );
    }
}
