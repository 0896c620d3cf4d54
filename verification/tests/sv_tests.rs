use pliron_circt::ir::attributes::Attribute;
use pliron_circt::sv::cst::{CstEvent, SyntaxTree};
use pliron_circt::sv::module::{SvModule, SvOp, SvOpKind, SvType};
use pliron_circt::sv::parser::{
    int_attr, lower_events, parse_number_literal, parse_sv_module, SvModuleLowerer,
};

fn module_of(source: &str) -> SvModule {
    match parse_sv_module(source) {
        Ok(m) => m,
        Err(e) => panic!("{}", e.message),
    }
}

fn error_of(source: &str) -> String {
    match parse_sv_module(source) {
        Ok(m) => panic!("{:?}", m),
        Err(e) => e.message,
    }
}

fn bits(width: u32) -> SvType {
    SvType::Integer { width }
}

/// Kind, name, operands and result of each operation.
fn brief(m: &SvModule) -> Vec<(SvOpKind, &str, Vec<usize>, Option<usize>)> {
    m.ops
        .iter()
        .map(|o: &SvOp| (o.kind, o.name.as_str(), o.operands.clone(), o.result))
        .collect()
}

#[test]
fn number_literals_are_read() {
    assert_eq!(parse_number_literal("8'hFF"), (255, 8));
    assert_eq!(parse_number_literal("4'b1010"), (10, 4));
    assert_eq!(parse_number_literal("32'd42"), (42, 32));
    assert_eq!(parse_number_literal("6'o17"), (15, 6));
    assert_eq!(parse_number_literal("'0"), (0, 32));
    assert_eq!(parse_number_literal("42"), (42, 32));
    assert_eq!(parse_number_literal("1_000"), (1000, 32));
    assert_eq!(parse_number_literal("16'hab_cd"), (0xabcd, 16));
    assert_eq!(parse_number_literal("8'sh7f"), (127, 8));
}

#[test]
fn number_literals_that_cannot_be_read_are_zero() {
    assert_eq!(parse_number_literal(""), (0, 32));
    assert_eq!(parse_number_literal("x"), (0, 32));
    assert_eq!(parse_number_literal("8'"), (0, 8));
    assert_eq!(parse_number_literal("w'd3"), (3, 32));
    assert_eq!(parse_number_literal("4'b12"), (0, 4));
    assert_eq!(parse_number_literal("18446744073709551616"), (0, 32));
    assert_eq!(parse_number_literal("18446744073709551615"), (u64::MAX, 32));
}

#[test]
fn digits_that_look_like_base_letters_are_digits() {
    assert_eq!(parse_number_literal("8'hB5"), (0xb5, 8));
    assert_eq!(parse_number_literal("8'hBD"), (0xbd, 8));
    assert_eq!(parse_number_literal("8'h5B"), (0x5b, 8));
    assert_eq!(parse_number_literal("16'hBEEF"), (0xbeef, 16));
    assert_eq!(parse_number_literal("16'hdead"), (0xdead, 16));
    assert_eq!(parse_number_literal("16'Sh0Bd"), (0xbd, 16));
    assert_eq!(parse_number_literal("16'sHBEEF"), (0xbeef, 16));
}

#[test]
fn written_numbers_are_read_back() {
    for n in [0u64, 7, 10, 4096, u64::MAX] {
        assert_eq!(parse_number_literal(&format!("{}", n)), (n, 32));
        for width in [1u32, 9, 64, u32::MAX] {
            assert_eq!(parse_number_literal(&format!("{}'d{}", width, n)), (n, width));
            assert_eq!(parse_number_literal(&format!("{}'h0{:x}", width, n)), (n, width));
            assert_eq!(parse_number_literal(&format!("{}'B{:b}", width, n)), (n, width));
            assert_eq!(parse_number_literal(&format!("{}'o{:o}", width, n)), (n, width));
        }
    }
    assert_eq!(parse_number_literal("1__0_"), parse_number_literal("10"));
    assert_eq!(parse_number_literal("+5"), (5, 32));
}

#[test]
fn ranges_count_their_bits_either_way() {
    let m = module_of("module m (input [7:0] a, input [0:7] b, input [11:4] c, input [5:5] d); endmodule");
    let widths: Vec<u32> = m.ports.iter().map(|p| p.bit_width).collect();
    assert_eq!(widths, vec![8, 8, 8, 1]);
    let s = module_of("module m (input [7:0] a); assign x = a[5:2]; assign y = a[2:5]; endmodule");
    assert_eq!(s.ops[0].kind, SvOpKind::Slice { low: 2, width: 4 });
    assert_eq!(s.ops[2].kind, SvOpKind::Slice { low: 2, width: 4 });
    let e = module_of(
        "module m (input a); assign x = a[4294967295:4294967295]; assign y = a[4294967295:1]; assign z = a[0:4294967294]; endmodule",
    );
    assert_eq!(e.ops[0].kind, SvOpKind::Slice { low: 4294967295, width: 1 });
    assert_eq!(e.ops[2].kind, SvOpKind::Slice { low: 1, width: 4294967295 });
    assert_eq!(e.ops[4].kind, SvOpKind::Slice { low: 0, width: 4294967295 });
    assert_eq!(
        error_of("module m (input a); assign x = a[4294967295:0]; endmodule"),
        "slice bounds are out of range"
    );
}

#[test]
fn outputs_come_last_and_follow_the_names() {
    let m = module_of(
        "module m (input a, b, output x, y, z); assign x = a; assign x = b; wire y; assign t = x; endmodule",
    );
    let (last, others) = match m.ops.split_last() {
        Some(parts) => parts,
        None => panic!("a module has operations"),
    };
    assert_eq!(last.kind, SvOpKind::Output);
    assert!(others.iter().all(|o| o.kind != SvOpKind::Output));
    // First a variable for x, which is read, and the declaration of y.
    assert_eq!((m.ops[0].kind, m.ops[0].name.as_str()), (SvOpKind::LogicDecl, "x"));
    assert_eq!((m.ops[1].kind, m.ops[1].name.as_str()), (SvOpKind::WireDecl, "y"));
    // The second assignment of x, the declaration of y, and a zero for z.
    assert_eq!(last.operands, vec![m.ops[3].result.unwrap(), m.ops[1].result.unwrap(), 7]);
    assert_eq!(m.ops[5].kind, SvOpKind::Constant { value: 0, width: 1 });
    assert_eq!(m.ops[4].operands, vec![m.ops[3].result.unwrap()]);
    assert_eq!(m.ports.len(), 5);
    assert_eq!(m.num_inputs, 2);
}

#[test]
fn a_refused_item_refuses_the_module() {
    assert_eq!(
        error_of("module m (input a); assign x = a; assign y = b; initial z = 1; endmodule"),
        "unresolved identifier 'b'"
    );
}

#[test]
fn integer_attributes_hold_the_low_bits() {
    match int_attr(8, 300) {
        Attribute::Integer { width, value } => assert_eq!((width, value), (8, 44)),
        _ => panic!("an integer"),
    }
    match int_attr(64, u64::MAX) {
        Attribute::Integer { width, value } => assert_eq!((width, value), (64, u64::MAX)),
        _ => panic!("an integer"),
    }
    match int_attr(100, 7) {
        Attribute::Integer { width, value } => assert_eq!((width, value), (100, 7)),
        _ => panic!("an integer"),
    }
}

#[test]
fn an_adder_is_lowered() {
    let m = module_of(
        "module alu (\n    input  logic [7:0] a,\n    input  logic [7:0] b,\n    output logic [7:0] sum\n);\n  assign sum = a + b;\nendmodule\n",
    );
    assert_eq!(m.name, "alu");
    assert_eq!(m.num_inputs, 2);
    assert_eq!(m.types, vec![bits(8), bits(8), bits(8), bits(8)]);
    assert_eq!(
        brief(&m),
        vec![
            (SvOpKind::Binary, "+", vec![0, 1], Some(2)),
            (SvOpKind::Assign, "sum", vec![2], Some(3)),
            (SvOpKind::Output, "", vec![3], None),
        ]
    );
    let names: Vec<&str> = m.ports.iter().map(|p| p.name.as_str()).collect();
    assert_eq!(names, vec!["a", "b", "sum"]);
    assert!(m.ports[0].is_input && !m.ports[0].is_output);
    assert!(!m.ports[2].is_input && m.ports[2].is_output);
}

#[test]
fn ports_take_over_the_direction_and_clocks_are_told_apart() {
    let m = module_of("module m (input logic [7:0] a, b, clk, rst, output q, inout [0:3] io); endmodule");
    assert_eq!(m.types[0..5], [bits(8), bits(1), SvType::Clock, SvType::Reset, bits(4)]);
    assert!(m.ports[1].is_input);
    assert_eq!(m.ports[1].bit_width, 1);
    assert!(m.ports[2].is_clock && !m.ports[2].is_reset);
    assert!(m.ports[3].is_reset && !m.ports[3].is_clock);
    assert!(m.ports[5].is_input && m.ports[5].is_output);
    assert_eq!(m.ports[5].bit_width, 4);
    assert_eq!(
        brief(&m),
        vec![
            (SvOpKind::Constant { value: 0, width: 1 }, "", vec![], Some(5)),
            (SvOpKind::Output, "", vec![5, 4], None),
        ]
    );
}

#[test]
fn a_wide_clock_is_no_clock() {
    let m = module_of("module m (input [1:0] clock, input reset); endmodule");
    assert_eq!(m.types, vec![bits(2), SvType::Reset]);
}

#[test]
fn expressions_follow_their_outermost_construct() {
    let m = module_of(
        "module m (input sel, input [7:0] a, b, c, output [7:0] y); assign y = sel ? a + b : ~c; endmodule",
    );
    assert_eq!(
        brief(&m),
        vec![
            (SvOpKind::Binary, "+", vec![1, 2], Some(4)),
            (SvOpKind::Unary, "~", vec![3], Some(5)),
            (SvOpKind::Mux, "", vec![0, 4, 5], Some(6)),
            (SvOpKind::Assign, "y", vec![6], Some(7)),
            (SvOpKind::Output, "", vec![7], None),
        ]
    );
    assert_eq!(m.types[6], bits(8));
}

#[test]
fn parentheses_and_unary_operators_are_lowered() {
    let m = module_of("module m (input a, b, output y); assign y = !(a & b); endmodule");
    assert_eq!(
        brief(&m),
        vec![
            (SvOpKind::Binary, "&", vec![0, 1], Some(2)),
            (SvOpKind::Unary, "!", vec![2], Some(3)),
            (SvOpKind::Assign, "y", vec![3], Some(4)),
            (SvOpKind::Output, "", vec![4], None),
        ]
    );
}

#[test]
fn slices_and_indices_are_lowered() {
    let m = module_of(
        "module m (input [7:0] a, input [2:0] i, output [3:0] y); assign y = a[7:4]; assign z = a[i]; assign w = a[0:2]; endmodule",
    );
    assert_eq!(
        brief(&m),
        vec![
            (SvOpKind::Slice { low: 4, width: 4 }, "", vec![0], Some(2)),
            (SvOpKind::Assign, "y", vec![2], Some(3)),
            (SvOpKind::Index, "", vec![0, 1], Some(4)),
            (SvOpKind::Assign, "z", vec![4], Some(5)),
            (SvOpKind::Slice { low: 0, width: 3 }, "", vec![0], Some(6)),
            (SvOpKind::Assign, "w", vec![6], Some(7)),
            (SvOpKind::Output, "", vec![3], None),
        ]
    );
    assert_eq!(m.types[2], bits(4));
    assert_eq!(m.types[4], bits(1));
    assert_eq!(m.types[6], bits(3));
}

#[test]
fn concatenations_add_up_their_widths() {
    let m = module_of(
        "module m (input clk, input [7:0] a, output [12:0] y); assign y = {a, 4'b1010, clk}; endmodule",
    );
    let k = module_of("module m (input [7:0] a); logic mem [0:3]; assign y = {a, mem}; endmodule");
    assert_eq!(k.types[2], bits(9));
    assert_eq!(
        brief(&m),
        vec![
            (SvOpKind::Constant { value: 10, width: 4 }, "", vec![], Some(2)),
            (SvOpKind::Concat, "", vec![1, 2, 0], Some(3)),
            (SvOpKind::Assign, "y", vec![3], Some(4)),
            (SvOpKind::Output, "", vec![4], None),
        ]
    );
    assert_eq!(m.types[3], bits(13));
}

#[test]
fn constants_are_cut_to_their_width() {
    let m = module_of("module m (output [3:0] y, z); assign y = 4'd20; assign z = '0; endmodule");
    assert_eq!(m.ops[0].kind, SvOpKind::Constant { value: 4, width: 4 });
    assert_eq!(m.ops[2].kind, SvOpKind::Constant { value: 0, width: 32 });
    for literal in ["'1", "'x", "'z"] {
        assert_eq!(
            error_of(&format!("module m (output [3:0] y); assign y = {}; endmodule", literal)),
            "unsupported SystemVerilog expression: unsupported primary expression"
        );
    }
}

#[test]
fn declarations_are_lowered() {
    let m = module_of(
        "module m; wire [7:0] w; logic [3:0] l; reg r; logic [7:0] mem [0:15]; logic [7:0] one [0:0]; endmodule",
    );
    assert_eq!(
        brief(&m),
        vec![
            (SvOpKind::WireDecl, "w", vec![], Some(0)),
            (SvOpKind::LogicDecl, "l", vec![], Some(1)),
            (SvOpKind::RegDecl, "r", vec![], Some(2)),
            (SvOpKind::MemDecl, "mem", vec![], Some(3)),
            (SvOpKind::LogicDecl, "one", vec![], Some(4)),
            (SvOpKind::Output, "", vec![], None),
        ]
    );
    assert_eq!(
        m.types,
        vec![bits(8), bits(4), bits(1), SvType::Memory { depth: 16, width: 8 }, bits(8)]
    );
}

#[test]
fn always_comb_is_lowered() {
    let m = module_of("module m (input a, b, output y); always_comb begin y = a ^ b; end endmodule");
    assert_eq!(
        brief(&m),
        vec![
            (SvOpKind::Binary, "^", vec![0, 1], Some(2)),
            (SvOpKind::AlwaysComb, "y", vec![2], Some(3)),
            (SvOpKind::Output, "", vec![3], None),
        ]
    );
}

#[test]
fn always_ff_with_an_asynchronous_reset_is_lowered() {
    let m = module_of(
        "module m (input clk, rst_n, input [7:0] d, output [7:0] q);\n  logic [7:0] q;\n  always_ff @(posedge clk or negedge rst_n) begin\n    if (!rst_n) begin\n      q <= 8'd0;\n    end else begin\n      q <= d;\n    end\n  end\nendmodule",
    );
    assert_eq!(
        brief(&m),
        vec![
            (SvOpKind::LogicDecl, "q", vec![], Some(3)),
            (SvOpKind::Constant { value: 0, width: 8 }, "", vec![], Some(4)),
            (SvOpKind::AlwaysFf { is_async: true, active_low: true }, "q", vec![0, 2, 1, 4], Some(5)),
            (SvOpKind::Output, "", vec![5], None),
        ]
    );
}

#[test]
fn always_ff_with_a_synchronous_reset_is_lowered() {
    let high = module_of(
        "module m (input clk, rst, d); always_ff @(posedge clk) if (rst) q <= 1'b0; else q <= d; endmodule",
    );
    assert_eq!(
        high.ops[1].kind,
        SvOpKind::AlwaysFf { is_async: false, active_low: false }
    );
    assert_eq!(high.ops[1].operands, vec![0, 2, 1, 3]);
    let low = module_of(
        "module m (input clk, rst_n, d); always_ff @(posedge clk) if (~rst_n) q <= 1'b0; else q <= d; endmodule",
    );
    assert_eq!(
        low.ops[1].kind,
        SvOpKind::AlwaysFf { is_async: false, active_low: true }
    );
    let rising = module_of(
        "module m (input clk, rst, d); always_ff @(posedge clk or posedge rst) if (rst) q <= 1'b0; else q <= d; endmodule",
    );
    assert_eq!(
        rising.ops[1].kind,
        SvOpKind::AlwaysFf { is_async: true, active_low: false }
    );
}

#[test]
fn always_ff_without_a_reset_is_lowered() {
    let m = module_of("module m (input clk, d); always_ff @(posedge clk) q <= d; endmodule");
    assert_eq!(
        brief(&m),
        vec![
            (SvOpKind::AlwaysFfNoReset, "q", vec![0, 1], Some(2)),
            (SvOpKind::Output, "", vec![], None),
        ]
    );
}

#[test]
fn procedural_blocks_drive_outputs() {
    let m = module_of(
        "module m(input logic clk, input logic [7:0] d, output logic [7:0] q); always_ff @(posedge clk) q <= d; endmodule",
    );
    assert_eq!(
        brief(&m),
        vec![
            (SvOpKind::AlwaysFfNoReset, "q", vec![0, 1], Some(2)),
            (SvOpKind::Output, "", vec![2], None),
        ]
    );
    assert_eq!(m.types[2], bits(8));
    let later = module_of(
        "module m(input a, b, output y, z); always_comb y = a | b; assign z = ~y; endmodule",
    );
    assert_eq!(
        brief(&later),
        vec![
            (SvOpKind::LogicDecl, "y", vec![], Some(2)),
            (SvOpKind::Binary, "|", vec![0, 1], Some(3)),
            (SvOpKind::AlwaysComb, "y", vec![3], Some(4)),
            (SvOpKind::Unary, "~", vec![4], Some(5)),
            (SvOpKind::Assign, "z", vec![5], Some(6)),
            (SvOpKind::Output, "", vec![4, 6], None),
        ]
    );
}

#[test]
fn a_counter_reads_its_own_output() {
    let m = module_of(
        "module counter(input logic clk, input logic rst, output logic [3:0] q);\n  always_ff @(posedge clk or posedge rst) begin\n    if (rst) q <= 4'd0; // start\n    else q <= q + 4'd1; // count\n  end\nendmodule",
    );
    assert_eq!(
        brief(&m),
        vec![
            (SvOpKind::LogicDecl, "q", vec![], Some(2)),
            (SvOpKind::Constant { value: 0, width: 4 }, "", vec![], Some(3)),
            (SvOpKind::Constant { value: 1, width: 4 }, "", vec![], Some(4)),
            (SvOpKind::Binary, "+", vec![2, 4], Some(5)),
            (
                SvOpKind::AlwaysFf { is_async: true, active_low: false },
                "q",
                vec![0, 5, 1, 3],
                Some(6)
            ),
            (SvOpKind::Output, "", vec![6], None),
        ]
    );
}

#[test]
fn names_can_be_used_before_their_declaration() {
    let m = module_of("module m(input logic a, output logic y); assign y = t; logic t; endmodule");
    assert_eq!(
        brief(&m),
        vec![
            (SvOpKind::LogicDecl, "t", vec![], Some(1)),
            (SvOpKind::Assign, "y", vec![1], Some(2)),
            (SvOpKind::Output, "", vec![2], None),
        ]
    );
    let n = module_of("module m(input a, output x, y); assign x = y; assign y = a; endmodule");
    assert_eq!(n.ops[0].kind, SvOpKind::LogicDecl);
    assert_eq!(n.ops[1].operands, vec![1]);
}

#[test]
fn declarators_are_all_declared() {
    let m = module_of(
        "module m(input a, b); wire [3:0] u, v; logic [7:0] x, mem [16], y; wire w = a & b; reg [8-1:0] r; endmodule",
    );
    assert_eq!(
        brief(&m),
        vec![
            (SvOpKind::WireDecl, "u", vec![], Some(2)),
            (SvOpKind::WireDecl, "v", vec![], Some(3)),
            (SvOpKind::LogicDecl, "x", vec![], Some(4)),
            (SvOpKind::MemDecl, "mem", vec![], Some(5)),
            (SvOpKind::LogicDecl, "y", vec![], Some(6)),
            (SvOpKind::WireDecl, "w", vec![], Some(7)),
            (SvOpKind::RegDecl, "r", vec![], Some(8)),
            (SvOpKind::Binary, "&", vec![0, 1], Some(9)),
            (SvOpKind::Assign, "w", vec![9], Some(10)),
            (SvOpKind::Output, "", vec![], None),
        ]
    );
    assert_eq!(m.types[3], bits(4));
    assert_eq!(m.types[5], SvType::Memory { depth: 16, width: 8 });
    assert_eq!(m.types[8], bits(8));
}

#[test]
fn range_bounds_are_computed() {
    let m = module_of(
        "module m(input [8-1:0] a, input [2*4+1:2] b, input [(3+1)*2-1-1:0] c, input [7-2-1:0] d, input [-1:-4] e, input [16/2%5:1'd1] f); endmodule",
    );
    let widths: Vec<u32> = m.ports.iter().map(|p| p.bit_width).collect();
    assert_eq!(widths, vec![8, 8, 7, 5, 4, 3]);
    let s = module_of("module m(input [7:0] a, output [3:0] y); assign y = a[8-1:2*2]; endmodule");
    assert_eq!(s.ops[0].kind, SvOpKind::Slice { low: 4, width: 4 });
    assert_eq!(
        error_of("module m(input [WIDTH-1:0] a); endmodule"),
        "range bound is not a constant"
    );
    assert_eq!(
        error_of("module m(input [4'bx:0] a); endmodule"),
        "range bound is not a constant"
    );
    assert_eq!(
        error_of("module m(input [7/0:0] a); endmodule"),
        "range bound is not a constant"
    );
    assert_eq!(
        error_of("module m; logic mem [0]; endmodule"),
        "memory depth is out of range"
    );
}

#[test]
fn operators_are_applied_by_precedence() {
    let m = module_of("module m(input a, b, c, output y); assign y = a * b + c; endmodule");
    assert_eq!(
        brief(&m)[0..2],
        [
            (SvOpKind::Binary, "*", vec![0, 1], Some(3)),
            (SvOpKind::Binary, "+", vec![3, 2], Some(4)),
        ]
    );
    let n = module_of("module m(input a, b, c, output y); assign y = a - b - c; endmodule");
    assert_eq!(
        brief(&n)[0..2],
        [
            (SvOpKind::Binary, "-", vec![0, 1], Some(3)),
            (SvOpKind::Binary, "-", vec![3, 2], Some(4)),
        ]
    );
    let o = module_of("module m(input a, b, c, output y); assign y = a | b & c; endmodule");
    assert_eq!(
        brief(&o)[0..2],
        [
            (SvOpKind::Binary, "&", vec![1, 2], Some(3)),
            (SvOpKind::Binary, "|", vec![0, 3], Some(4)),
        ]
    );
    let p = module_of("module m(input a, b, c, output y); assign y = a - (b - c); endmodule");
    assert_eq!(
        brief(&p)[0..2],
        [
            (SvOpKind::Binary, "-", vec![1, 2], Some(3)),
            (SvOpKind::Binary, "-", vec![0, 3], Some(4)),
        ]
    );
}

#[test]
fn a_choice_depends_on_all_before_it() {
    let m = module_of("module m(input a, b, c, output y); assign y = a & b ? b : c ? a : b; endmodule");
    assert_eq!(
        brief(&m)[0..3],
        [
            (SvOpKind::Binary, "&", vec![0, 1], Some(3)),
            (SvOpKind::Mux, "", vec![2, 0, 1], Some(4)),
            (SvOpKind::Mux, "", vec![3, 1, 4], Some(5)),
        ]
    );
    let n = module_of(
        "module m(input [1:0] s, input a, b, output y); assign y = s == 2'd1 ? a : b; endmodule",
    );
    assert_eq!(
        brief(&n)[0..3],
        [
            (SvOpKind::Constant { value: 1, width: 2 }, "", vec![], Some(3)),
            (SvOpKind::Binary, "==", vec![0, 3], Some(4)),
            (SvOpKind::Mux, "", vec![4, 1, 2], Some(5)),
        ]
    );
}

#[test]
fn comments_are_no_part_of_a_name() {
    let m = module_of(
        "module m /* the module */ (input a /* in */, output y // out\n); assign y /* target */ = a /* value */ ; endmodule // end",
    );
    assert_eq!(m.name, "m");
    assert_eq!(m.ports[0].name, "a");
    assert_eq!(m.ports[1].name, "y");
    assert_eq!(m.ops[0].name, "y");
}

#[test]
fn instances_are_lowered() {
    let m = module_of(
        "module m (input x, y); child u1 (.a(x), .b(y)); child u2 (y, x), u3 (.x, .b()); endmodule",
    );
    let instances: Vec<(&str, &str, Vec<usize>)> = m.ops[0..3]
        .iter()
        .map(|o| (o.name.as_str(), o.callee.as_str(), o.operands.clone()))
        .collect();
    assert_eq!(
        instances,
        vec![
            ("u1", "child", vec![0, 1]),
            ("u2", "child", vec![1, 0]),
            ("u3", "child", vec![0]),
        ]
    );
    assert_eq!(m.ops[0].kind, SvOpKind::Instance);
}

#[test]
fn the_first_module_is_lowered() {
    let m = module_of("module first (input a); endmodule module second (input b); endmodule");
    assert_eq!(m.name, "first");
}

#[test]
fn unsupported_sources_are_refused() {
    assert_eq!(
        error_of("module m (a, b); input a; output b; endmodule"),
        "non-ANSI module declarations are not yet supported"
    );
    assert_eq!(
        error_of("package p; endpackage"),
        "no supported SystemVerilog module declaration found in syntax tree"
    );
    assert_eq!(
        error_of("module m (ref logic b); endmodule"),
        "ref ports are not supported in RTL"
    );
    assert_eq!(
        error_of("module \\a+b  (input c); endmodule"),
        "invalid module identifier '\\a+b'"
    );
    assert_eq!(
        error_of("module m (input a); initial x = 1; endmodule"),
        "unsupported SystemVerilog construct: unsupported module item"
    );
    assert_eq!(
        error_of("module m (input clk); always @(posedge clk) q <= 1; endmodule"),
        "unsupported SystemVerilog construct: unsupported always construct type"
    );
    assert_eq!(
        error_of("module m (input a); assign y = f(a); endmodule"),
        "unsupported SystemVerilog expression: unsupported primary expression"
    );
    assert_eq!(
        error_of("module m (input a); assign y = {2{a}}; endmodule"),
        "unsupported SystemVerilog expression: unsupported primary expression"
    );
    assert_eq!(
        error_of("module m (input a); assign y = a inside {1, 2}; endmodule"),
        "unsupported SystemVerilog expression: unsupported expression"
    );
    assert_eq!(
        error_of("module m (input [7:0] a, input i); assign y = a[i+:4]; endmodule"),
        "unsupported SystemVerilog expression: unsupported select"
    );
    assert_eq!(
        error_of("module m (input [7:0] a); assign y = a[1][2]; endmodule"),
        "unsupported SystemVerilog expression: unsupported select"
    );
}

#[test]
fn names_must_be_known() {
    assert_eq!(
        error_of("module m (input a); assign y = b; endmodule"),
        "unresolved identifier 'b'"
    );
    assert_eq!(
        error_of("module m (input d); always_ff @(posedge clk) q <= d; endmodule"),
        "unresolved identifier 'clk'"
    );
    assert_eq!(
        error_of("module m (input a); child u (.b); endmodule"),
        "unresolved identifier 'b'"
    );
}

#[test]
fn clocked_blocks_must_be_complete() {
    assert_eq!(
        error_of("module m (input d); always_ff q <= d; endmodule"),
        "always_ff requires timing control"
    );
    assert_eq!(
        error_of("module m (input clk, rst, d); always_ff @(posedge clk) if (rst) q <= 0; endmodule"),
        "conditional statement missing else branch"
    );
    assert_eq!(
        error_of(
            "module m (input clk, rst, d); always_ff @(posedge clk) if (rst) q <= 0; else p <= d; endmodule"
        ),
        "reset target 'q' does not match next-state target 'p'"
    );
    assert_eq!(
        error_of("module m (input clk); always_comb begin end endmodule"),
        "cannot find assignment inside procedural block"
    );
}

#[test]
fn clocks_and_resets_are_events() {
    let m = module_of(
        "module m(input core_clk, d); always_ff @(posedge core_clk) q <= d; endmodule",
    );
    assert_eq!(m.ops[0].kind, SvOpKind::AlwaysFfNoReset);
    assert_eq!(m.ops[0].operands, vec![0, 1]);
    let comma = module_of(
        "module m(input clk, reset_or, d); always_ff @(posedge clk, negedge reset_or) if (!(reset_or)) q <= 1'b0; else q <= d; endmodule",
    );
    assert_eq!(comma.ops[1].kind, SvOpKind::AlwaysFf { is_async: true, active_low: true });
    let wide = module_of(
        "module m(input clk, input [1:0] w, input d); always_ff @(posedge clk) if (w) q <= 1'b0; else q <= d; endmodule",
    );
    assert_eq!(wide.ops[1].operands, vec![0, 2, 1, 3]);
    let ff = |list: &str, body: &str| -> String {
        error_of(&format!(
            "module m(input clk, rst, input [1:0] w, input d); always_ff @({}) {} endmodule",
            list, body
        ))
    };
    let construct = "unsupported SystemVerilog construct: ";
    assert_eq!(ff("negedge clk", "q <= d;"), format!("{}unsupported clock edge", construct));
    assert_eq!(ff("clk", "q <= d;"), format!("{}unsupported clock edge", construct));
    assert_eq!(ff("posedge w", "q <= d;"), "the clock is not a single bit");
    assert_eq!(ff("posedge rst", "q <= d;"), "the clock is not a single bit");
    assert_eq!(ff("*", "q <= d;"), "cannot extract clock from sensitivity list");
    assert_eq!(
        ff("posedge clk iff d", "q <= d;"),
        format!("{}unsupported event", construct)
    );
    assert_eq!(
        ff("posedge clk or posedge rst or posedge d", "q <= d;"),
        format!("{}unsupported event", construct)
    );
    assert_eq!(
        ff("posedge clk or posedge rst", "q <= d;"),
        format!("{}the reset is not used", construct)
    );
    let branches = "q <= 1'b0; else q <= d;";
    assert_eq!(
        ff("posedge clk or rst", &format!("if (rst) {}", branches)),
        format!("{}unsupported reset edge", construct)
    );
    assert_eq!(
        ff("posedge clk or posedge rst", &format!("if (!rst) {}", branches)),
        format!("{}the condition is not that of the reset", construct)
    );
    assert_eq!(
        ff("posedge clk or posedge rst", &format!("if (d) {}", branches)),
        format!("{}the condition is not that of the reset", construct)
    );
    assert_eq!(ff("posedge clk", &format!("if (!(!rst)) {}", branches)), "unresolved identifier '!rst'");
}

#[test]
fn the_events_of_a_sensitivity_list_are_extracted() {
    // @(posedge core_clk or negedge rst_n)
    let text = "posedge core_clk negedge rst_n";
    let events = vec![
        enter("ProceduralTimingControl"),
        enter("EventExpressionOr"),
        enter("EventExpressionExpression"),
        enter("EdgeIdentifier"),
        token(0, 7),
        leave(),
        leave(),
        enter("Expression"),
        token(8, 8),
        leave(),
        leave(),
        leave(),
        enter("EventExpressionExpression"),
        enter("EdgeIdentifier"),
        token(17, 7),
        leave(),
        leave(),
        enter("Expression"),
        token(25, 5),
        leave(),
        leave(),
        leave(),
        leave(),
        leave(),
    ];
    let tree = match SyntaxTree::from_events(text, &events) {
        Some(t) => t,
        None => panic!("a tree"),
    };
    let lowerer = SvModuleLowerer::new(&tree);
    match lowerer.extract_clock_and_reset_events(0) {
        Ok((clock, Some(reset))) => {
            assert_eq!(clock, "core_clk");
            assert_eq!(reset.name, "rst_n");
            assert!(reset.active_low);
        },
        Ok((_, None)) => panic!("a reset"),
        Err(e) => panic!("{}", e.message),
    }
    match lowerer.extract_clock_and_reset_events(2) {
        Ok((clock, reset)) => {
            assert_eq!(clock, "core_clk");
            assert!(reset.is_none());
        },
        Err(e) => panic!("{}", e.message),
    }
    match lowerer.extract_range_width(0) {
        Ok(width) => assert_eq!(width, 1),
        Err(e) => panic!("{}", e.message),
    }
}

#[test]
fn nothing_is_dropped_silently() {
    let item = |body: &str| -> String {
        let e = error_of(&format!(
            "module m(input clk, rst, a, b, input [3:0] v, output y); {} endmodule",
            body
        ));
        match e.strip_prefix("unsupported SystemVerilog construct: ") {
            Some(rest) => rest.to_string(),
            None => e,
        }
    };
    assert_eq!(item("assign #1 y = a;"), "unsupported delay or strength");
    assert_eq!(item("assign y = a, z = b;"), "unsupported list of assignments");
    assert_eq!(item("assign {y, z} = v;"), "unsupported assignment target");
    assert_eq!(item("assign y[0] = a;"), "unsupported assignment target");
    assert_eq!(item("wire #2 w;"), "unsupported delay or strength");
    assert_eq!(item("wire u = a, w = b;"), "unsupported list of assignments");
    assert_eq!(item("wire w [0:3];"), "unsupported unpacked dimension");
    assert_eq!(item("logic l = 1'b0;"), "unsupported initial value");
    assert_eq!(item("logic [3:0][1:0] l;"), "unsupported packed dimensions");
    assert_eq!(item("logic l [0:3][0:1];"), "unsupported unpacked dimension");
    assert_eq!(item("logic l [$];"), "range bound is not a constant");
    assert_eq!(item("integer i;"), "unsupported data type");
    assert_eq!(item("typedef logic t;"), "unsupported data declaration");
    assert_eq!(item("always_comb y += a;"), "unsupported assignment operator");
    assert_eq!(item("always_comb begin y = a; z = b; end"), "unsupported procedural statement");
    assert_eq!(
        item("always_comb begin y = a; $display(\"y\"); end"),
        "unsupported procedural statement"
    );
    assert_eq!(item("always_comb if (a) y = b;"), "unsupported procedural statement");
    assert_eq!(
        item("always_ff @(posedge clk) begin y <= a; z <= b; end"),
        "unsupported procedural statement"
    );
    assert_eq!(item("always_ff @(posedge clk) y <= #1 a;"), "unsupported procedural statement");
    assert_eq!(
        item("always_ff @(posedge clk) if (rst) y <= 0; else if (a) y <= b; else y <= a;"),
        "unsupported conditional statement"
    );
    assert_eq!(item("child #(4) u (a);"), "unsupported parameter values");
    assert_eq!(item("child u [3:0] (a);"), "unsupported instance array");
    assert_eq!(item("child u (.*);"), "unsupported port connection");
    assert_eq!(item("generate assign y = a; endgenerate"), "unsupported module item");
    assert_eq!(item("function f(input i); f = i; endfunction"), "unsupported module item");
    assert_eq!(item("parameter P = 1;"), "unsupported module item");
    assert_eq!(
        item("assign y = {a, b}[0];"),
        "unsupported SystemVerilog expression: unsupported primary expression"
    );
    assert_eq!(
        item("logic [3:0] mem [0:3]; assign y = mem & v;"),
        "unsupported SystemVerilog expression: a memory is not an operand"
    );
    assert_eq!(
        item("assign y = 1.5;"),
        "unsupported SystemVerilog expression: unsupported primary expression"
    );
    assert_eq!(
        error_of("module m(input a [0:1]); endmodule"),
        "unsupported SystemVerilog construct: unsupported port"
    );
    assert_eq!(
        error_of("module m(input a = 1'b0); endmodule"),
        "unsupported SystemVerilog construct: unsupported port"
    );
    assert_eq!(
        error_of("module m(input integer a); endmodule"),
        "unsupported SystemVerilog construct: unsupported data type"
    );
}

#[test]
fn a_refused_expression_adds_nothing() {
    // 1 & x
    let events = vec![
        enter("Expression"),
        enter("ExpressionBinary"),
        enter("Expression"),
        enter("Primary"),
        enter("PrimaryLiteral"),
        enter("IntegralNumber"),
        token(0, 1),
        leave(),
        leave(),
        leave(),
        leave(),
        leave(),
        enter("BinaryOperator"),
        token(2, 1),
        leave(),
        leave(),
        enter("Expression"),
        enter("Primary"),
        enter("PrimaryHierarchical"),
        enter("HierarchicalIdentifier"),
        token(4, 1),
        leave(),
        leave(),
        leave(),
        leave(),
        leave(),
        leave(),
        leave(),
    ];
    let tree = match SyntaxTree::from_events("1 & x", &events) {
        Some(t) => t,
        None => panic!("a tree"),
    };
    let mut lowerer = SvModuleLowerer::new(&tree);
    for _ in 0..2 {
        match lowerer.lower_expression(0) {
            Ok(v) => panic!("{}", v),
            Err(e) => assert_eq!(e.message, "unresolved identifier 'x'"),
        }
    }
    match lowerer.lower_expression(2) {
        Ok(v) => assert_eq!(v, 0),
        Err(e) => panic!("{}", e.message),
    }
    match lowerer.lower_module() {
        Ok(m) => panic!("{:?}", m),
        Err(e) => assert_eq!(
            e.message,
            "no supported SystemVerilog module declaration found in syntax tree"
        ),
    }
}

#[test]
fn widths_that_do_not_exist_are_refused() {
    let events = vec![
        enter("Expression"),
        enter("Primary"),
        enter("PrimaryLiteral"),
        enter("Number"),
        enter("IntegralNumber"),
        token(0, 4),
        leave(),
        leave(),
        leave(),
        leave(),
        leave(),
        leave(),
    ];
    let tree = match SyntaxTree::from_events("0'd1", &events) {
        Some(t) => t,
        None => panic!("a tree"),
    };
    let mut lowerer = SvModuleLowerer::new(&tree);
    match lowerer.lower_expression(0) {
        Ok(v) => panic!("{}", v),
        Err(e) => assert_eq!(e.message, "a constant cannot have width 0"),
    }
    assert_eq!(
        error_of("module m (input [18446744073709551615:0] a); endmodule"),
        "range is too wide"
    );
    assert_eq!(
        error_of("module m (input [7:0] a); assign y = a[4294967296:4294967295]; endmodule"),
        "slice bounds are out of range"
    );
    assert_eq!(
        error_of("module m (input [4294967294:0] a, input [7:0] b); assign y = {a, b}; endmodule"),
        "concatenation is too wide"
    );
}

#[test]
fn syntax_errors_are_reported() {
    let e = error_of("module m (input a; endmodule");
    assert!(e.starts_with("sv-parser syntax error: "), "{}", e);
    let d = error_of("module m; assign y = `FOO; endmodule");
    assert_eq!(d, "sv-parser syntax error: DefineNotFound(\"FOO\")");
}

#[test]
fn escaped_identifiers_and_macros_are_read() {
    let m = module_of(
        "module m (input \\a+b , input c, output y); assign y = \\a+b  & c; assign z = c; endmodule",
    );
    assert_eq!(m.ports[0].name, "\\a+b");
    assert_eq!(m.ports[1].name, "c");
    assert_eq!(m.ops[0].operands, vec![0, 1]);
    assert_eq!(m.ops[2].operands, vec![1]);
    let n = module_of(
        "`define WIDTH 16\nmodule m (input [`WIDTH-1:0] a, input [7:0] b, output [7:0] y); assign y = b; endmodule",
    );
    let t = module_of(
        "`timescale 1ns/1ps\n`default_nettype none\nmodule m (input a, output y); assign y = a; endmodule",
    );
    assert_eq!((t.name.as_str(), t.ops[0].operands.clone()), ("m", vec![0]));
    assert_eq!(n.ports[0].bit_width, 16);
    assert_eq!(n.ports[1].name, "b");
    assert_eq!(n.ports[1].bit_width, 8);
}

#[test]
fn text_beyond_ascii_is_placed() {
    let m = module_of(
        "module m (input a, output y); // \u{3b1}\u{3b2} \u{65e5}\u{672c}\n assign y = a; endmodule",
    );
    assert_eq!(m.ops[0].name, "y");
    assert_eq!(m.ops[0].operands, vec![0]);
}

fn enter(name: &str) -> CstEvent {
    CstEvent::entry(name.to_string())
}

fn leave() -> CstEvent {
    CstEvent::exit()
}

fn token(offset: usize, len: usize) -> CstEvent {
    CstEvent::token(offset, len)
}

#[test]
fn a_walk_must_fit_the_text() {
    let misfit = "the syntax tree does not match the source text";
    let mut cases: Vec<Vec<CstEvent>> = Vec::new();
    cases.push(vec![enter("SourceText")]);
    cases.push(vec![leave()]);
    cases.push(vec![token(0, 9), leave()]);
    cases.push(vec![token(1, 1), leave(), token(0, 1), leave()]);
    for events in &cases {
        match lower_events("ab", events) {
            Ok(m) => panic!("{:?}", m),
            Err(e) => assert_eq!(e.message, misfit),
        }
    }
    match lower_events("\u{3b1}", &vec![token(1, 1), leave()]) {
        Ok(m) => panic!("{:?}", m),
        Err(e) => assert_eq!(e.message, misfit),
    }
}

#[test]
fn a_walk_gives_the_nodes_in_order() {
    let events = vec![enter("Expression"), enter("Primary"), token(1, 2), leave(), leave(), leave()];
    let tree = match SyntaxTree::from_events(" ab ", &events) {
        Some(t) => t,
        None => panic!("a tree"),
    };
    assert_eq!(tree.nodes.len(), 3);
    assert_eq!((tree.nodes[0].end, tree.nodes[1].end, tree.nodes[2].end), (3, 3, 3));
    assert_eq!(tree.node_text(0), "ab");
    let mut lowerer = SvModuleLowerer::new(&tree);
    match lowerer.lower_expression(0) {
        Ok(v) => panic!("{}", v),
        Err(e) => assert_eq!(
            e.message,
            "unsupported SystemVerilog expression: unsupported primary expression"
        ),
    }
}
