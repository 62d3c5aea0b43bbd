use bfc::backend::c::CBackend;
use bfc::backend::use_backend;
use bfc::c_backend::write_from_ir;
use bfc::ir::build_ir;
use bfc::ir::Atom;

fn text_of(ir: &Vec<Atom>) -> String {
    let mut out = Vec::new();
    write_from_ir(ir, &mut out).unwrap();
    String::from_utf8(out).unwrap()
}

const HEADER: &str = "#include <stdlib.h>\n#include <stdio.h>\n#include <stdint.h>\nint8_t memory[30000];\nint8_t* ptr = memory;\nint main() {\n";

#[test]
fn the_empty_program_is_an_empty_main() {
    assert_eq!(text_of(&vec![]), format!("{}}}\n", HEADER));
}

#[test]
fn each_atom_has_its_statement() {
    let ir = vec![
        Atom::MovePtr(-3),
        Atom::SetValue(255, 12),
        Atom::IncValue(-128, 0),
        Atom::Print(7),
        Atom::Read(-1),
        Atom::Multiply(-2, 100),
    ];
    let expected = format!(
        "{}\tptr += -3;\n\t*(ptr + 12) = 255;\n\t*(ptr + 0) += -128;\n\tputchar(*(ptr + 7));\n\t*(ptr + -1) = getchar();\n\t*(ptr + 100) += *(ptr) * -2;\n}}\n",
        HEADER
    );
    assert_eq!(text_of(&ir), expected);
}

#[test]
fn loops_are_indented() {
    let ir = build_ir(b"[>[-]].").unwrap();
    let expected = format!(
        "{}\twhile(*ptr) {{\n\t\tptr += 1;\n\t\twhile(*ptr) {{\n\t\t\t*(ptr + 0) += -1;\n\t\t}}\n\t}}\n\tputchar(*(ptr + 0));\n}}\n",
        HEADER
    );
    assert_eq!(text_of(&ir), expected);
}

#[test]
fn extreme_offsets_are_written_in_full() {
    let ir = vec![Atom::MovePtr(isize::MIN), Atom::MovePtr(isize::MAX), Atom::MovePtr(0)];
    let expected = format!(
        "{}\tptr += {};\n\tptr += {};\n\tptr += 0;\n}}\n",
        HEADER,
        isize::MIN,
        isize::MAX
    );
    assert_eq!(text_of(&ir), expected);
}

#[test]
fn the_text_is_appended_to_what_the_writer_holds() {
    let mut out = b"// generated\n".to_vec();
    write_from_ir(&vec![Atom::Print(0)], &mut out).unwrap();
    assert_eq!(
        String::from_utf8(out).unwrap(),
        format!("// generated\n{}\tputchar(*(ptr + 0));\n}}\n", HEADER)
    );
}

#[test]
fn the_backend_interface_gives_the_same_text() {
    let ir = build_ir(b"+[>,[.-]<<]>>[[[-]]]").unwrap();
    let through_walk = use_backend(CBackend::new(Vec::new()), &ir).unwrap();
    assert_eq!(String::from_utf8(through_walk).unwrap(), text_of(&ir));
}
