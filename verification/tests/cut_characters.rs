use sbcut::range_parser::Range;
use sbcut::cut::cut_line_with_characters;

const CONTENT: &str = "abcde";
const N: i32 = 5;
const START_A: i32 = -N - 3; // -8
const START_B: i32 = -N + 1; // -4
const START_C: i32 = 2;
const START_D: i32 = 4;
const START_E: i32 = N + 2; // 7
const END_A: i32 = -N - 4; // -9
const END_B: i32 = -N + 4; // -1
const END_C: i32 = 0;
const END_D: i32 = N - 2; // 3
const END_E: i32 = N + 4; // 9
const END_F: i32 = N; // 5
const STEP_A: i32 = 1;
const STEP_B: i32 = -1;
const STEP_C: i32 = 2;
const STEP_D: i32 = -2;
const STEP_E: i32 = 0;

#[test]
fn cut_test_01_start_a_end_a_step_a() {
    // start: (-inf; -n), end (-inf; -n], step = 1
    base_test(START_A, END_A, STEP_A, vec![], false)
}

#[test]
fn cut_test_02_start_a_end_b_step_a() {
    // start: (-inf; -n), end: (-n; 0), step = 1
    base_test(START_A, END_B, STEP_A, vec![], false)
}

#[test]
fn cut_test_03_start_a_end_c_step_a() {
    // start: (-inf; -n), end=0, step = 1
    base_test(START_A, END_C, STEP_A, vec![], false)
}

#[test]
fn cut_test_04_start_a_end_d_step_a() {
    // start: (-inf; -n), end: (0; n], step = 1
    base_test(START_A, END_D, STEP_A, vec![], false)
}

#[test]
fn cut_test_05_start_a_end_e_step_a() {
    // start: (-inf; -n), end: (n; +inf), step = 1
    base_test(START_A, END_E, STEP_A, vec![], false)
}

#[test]
fn cut_test_06_start_a_end_a_step_b() {
    // start: (-inf; -n), end (-inf; -n], step = -1
    base_test(START_A, END_A, STEP_B, vec![], false)
}

#[test]
fn cut_test_07_start_a_end_b_step_b() {
    // start: (-inf; -n), end: (-n; 0), step = -1
    base_test(START_A, END_B, STEP_B, vec![], false)
}

#[test]
fn cut_test_08_start_a_end_c_step_b() {
    // start: (-inf; -n), end=0, step = -1
    base_test(START_A, END_C, STEP_B, vec![], false)
}

#[test]
fn cut_test_09_start_a_end_d_step_b() {
    // start: (-inf; -n), end: (0; n], step = -1
    base_test(START_A, END_D, STEP_B, vec![], false)
}

#[test]
fn cut_test_10_start_a_end_e_step_b() {
    // start: (-inf; -n), end: (n; +inf), step = -1
    base_test(START_A, END_E, STEP_B, vec![], false)
}

#[test]
fn cut_test_11_start_b_end_a_step_a() {
    // start: [-n; 0), end (-inf; -n], step = 1
    base_test(START_B, END_A, STEP_A, vec![], false)
}

#[test]
fn cut_test_12_start_b_end_b_step_a() {
    // start: [-n; 0), end: (-n; 0), step = 1
    base_test(START_B, END_B, STEP_A, vec!["b", "c", "d"], false)
}

#[test]
fn cut_test_13_start_b_end_c_step_a() {
    // start: [-n; 0), end=0, step = 1
    base_test(START_B, END_C, STEP_A, vec![], false)
}

#[test]
fn cut_test_14_start_b_end_d_step_a() {
    // start:[-n; 0), end: (0; n], step = 1
    base_test(START_B, END_D, STEP_A, vec!["b", "c"], false)
}

#[test]
fn cut_test_15_start_b_end_e_step_a() {
    // start: [-n; 0), end: (n; +inf), step = 1
    base_test(START_B, END_E, STEP_A, vec![], false)
}

#[test]
fn cut_test_16_start_b_end_a_step_b() {
    // start: [-n; 0), end (-inf; -n], step = -1
    base_test(START_B, END_A, STEP_B, vec![], false)
}

#[test]
fn cut_test_17_start_b_end_b_step_b() {
    // start: [-n; 0), end: (-n; 0), step = -1
    base_test(START_B, END_B, STEP_B, vec!["d", "c", "b"], false)
}

#[test]
fn cut_test_18_start_b_end_c_step_b() {
    // start: [-n; 0), end=0, step = -1
    base_test(START_B, END_C, STEP_B, vec![], false)
}

#[test]
fn cut_test_19_start_b_end_d_step_b() {
    // start: [-n; 0), end: (0; n], step = -1
    base_test(START_B, END_D, STEP_B, vec!["c", "b"], false)
}

#[test]
fn cut_test_20_start_b_end_e_step_b() {
    // start: [-n; 0), end: (n; +inf), step = -1
    base_test(START_B, END_E, STEP_B, vec![], false)
}

#[test]
fn cut_test_21_start_c_end_a_step_a() {
    // start: [0; end), end (-inf; -n], step = 1
    base_test(START_C, END_A, STEP_A, vec![], false)
}

#[test]
fn cut_test_22_start_c_end_b_step_a() {
    // start: [0; end), end: (-n; 0), step = 1
    base_test(START_C, END_B, STEP_A, vec!["c", "d"], false)
}

#[test]
fn cut_test_23_start_c_end_c_step_a() {
    // start: [0; end), end=0, step = 1
    base_test(START_C, END_C, STEP_A, vec![], false)
}

#[test]
fn cut_test_24_start_c_end_d_step_a() {
    // start:[0; end), end: (0; n], step = 1
    base_test(START_C, END_D, STEP_A, vec!["c"], false)
}

#[test]
fn cut_test_25_start_c_end_e_step_a() {
    // start: [0; end), end: (n; +inf), step = 1
    base_test(START_C, END_E, STEP_A, vec![], false)
}

#[test]
fn cut_test_26_start_c_end_a_step_b() {
    // start: [0; end), end (-inf; -n], step = -1
    base_test(START_C, END_A, STEP_B, vec![], false)
}

#[test]
fn cut_test_27_start_c_end_b_step_b() {
    // start: [0; end), end: (-n; 0), step = -1
    base_test(START_C, END_B, STEP_B, vec!["d", "c"], false)
}

#[test]
fn cut_test_28_start_c_end_c_step_b() {
    // start: [0; end), end=0, step = -1
    base_test(START_C, END_C, STEP_B, vec![], false)
}

#[test]
fn cut_test_29_start_c_end_d_step_b() {
    // start: [0; end), end: (0; n], step = -1
    base_test(START_C, END_D, STEP_B, vec!["c"], false)
}

#[test]
fn cut_test_30_start_c_end_e_step_b() {
    // start: [0; end), end: (n; +inf), step = -1
    base_test(START_C, END_E, STEP_B, vec![], false)
}

#[test]
fn cut_test_31_start_d_end_a_step_a() {
    // start: [end: n) , end (-inf; -n], step = 1
    base_test(START_D, END_A, STEP_A, vec![], false)
}

#[test]
fn cut_test_32_start_d_end_b_step_a() {
    // start: [end: n) , end: (-n; 0), step = 1
    base_test(START_D, END_B, STEP_A, vec![], false)
}

#[test]
fn cut_test_33_start_d_end_c_step_a() {
    // start: [end: n) , end=0, step = 1
    base_test(START_D, END_C, STEP_A, vec![], false)
}

#[test]
fn cut_test_34_start_d_end_d_step_a() {
    // start:[end: n) , end: (0; n], step = 1
    base_test(START_D, END_D, STEP_A, vec![], false)
}

#[test]
fn cut_test_35_start_d_end_e_step_a() {
    // start: [end: n) , end: (n; +inf), step = 1
    base_test(START_D, END_E, STEP_A, vec![], false)
}

#[test]
fn cut_test_36_start_d_end_a_step_b() {
    // start: [end: n) , end (-inf; -n], step = -1
    base_test(START_D, END_A, STEP_B, vec![], false)
}

#[test]
fn cut_test_37_start_d_end_b_step_b() {
    // start: [end: n) , end: (-n; 0), step = -1
    base_test(START_D, END_B, STEP_B, vec![], false)
}

#[test]
fn cut_test_38_start_d_end_c_step_b() {
    // start: [end: n) , end=0, step = -1
    base_test(START_D, END_C, STEP_B, vec![], false)
}

#[test]
fn cut_test_39_start_d_end_d_step_b() {
    // start: [end: n) , end: (0; n], step = -1
    base_test(START_D, END_D, STEP_B, vec![], false)
}

#[test]
fn cut_test_40_start_d_end_e_step_b() {
    // start: [end: n) , end: (n; +inf), step = -1
    base_test(START_D, END_E, STEP_B, vec![], false)
}

#[test]
fn cut_test_41_start_e_end_a_step_a() {
    // start: [n: +inf) , end (-inf; -n], step = 1
    base_test(START_E, END_A, STEP_A, vec![], false)
}

#[test]
fn cut_test_42_start_e_end_b_step_a() {
    // start: [n: +inf) , end: (-n; 0), step = 1
    base_test(START_E, END_B, STEP_A, vec![], false)
}

#[test]
fn cut_test_43_start_e_end_c_step_a() {
    // start: [n: +inf) , end=0, step = 1
    base_test(START_E, END_C, STEP_A, vec![], false)
}

#[test]
fn cut_test_44_start_e_end_d_step_a() {
    // start: [n: +inf) , end: (0; n], step = 1
    base_test(START_E, END_D, STEP_A, vec![], false)
}

#[test]
fn cut_test_45_start_e_end_e_step_a() {
    // start: [n: +inf) , end: (n; +inf), step = 1
    base_test(START_E, END_E, STEP_A, vec![], false)
}

#[test]
fn cut_test_46_start_e_end_a_step_b() {
    // start: [n: +inf) , end (-inf; -n], step = -1
    base_test(START_E, END_A, STEP_B, vec![], false)
}

#[test]
fn cut_test_47_start_e_end_b_step_b() {
    // start: [n: +inf) , end: (-n; 0), step = -1
    base_test(START_E, END_B, STEP_B, vec![], false)
}

#[test]
fn cut_test_48_start_e_end_c_step_b() {
    // start: [n: +inf) , end=0, step = -1
    base_test(START_E, END_C, STEP_B, vec![], false)
}

#[test]
fn cut_test_49_start_e_end_d_step_b() {
    // start: [n: +inf) , end: (0; n], step = -1
    base_test(START_E, END_D, STEP_B, vec![], false)
}

#[test]
fn cut_test_50_start_e_end_e_step_b() {
    // start: [n: +inf) , end: (n; +inf), step = -1
    base_test(START_E, END_E, STEP_B, vec![], false)
}

#[test]
fn cut_test_51_start_b_end_b_step_c() {
    // start: [-n; 0), end: (-n; 0), step = 2
    base_test(START_B, END_B, STEP_C, vec!["b", "d"], false)
}

#[test]
fn cut_test_52_start_b_end_d_step_c() {
    // start: [-n; 0), end: (-n; 0), step = 2
    base_test(START_B, END_D, STEP_C, vec!["b"], false)
}

#[test]
fn cut_test_53_start_c_end_b_step_c() {
    // start: [-n; 0), end: (-n; 0), step = 2
    base_test(START_C, END_B, STEP_C, vec!["c"], false)
}

#[test]
fn cut_test_54_start_c_end_d_step_c() {
    // start: [-n; 0), end: (-n; 0), step = 2
    base_test(START_C, END_D, STEP_C, vec!["c"], false)
}

#[test]
fn cut_test_55_start_b_end_b_step_d() {
    // start: [-n; 0), end: (-n; 0), step = -2
    base_test(START_B, END_B, STEP_D, vec!["d", "b"], false)
}

#[test]
fn cut_test_56_start_b_end_d_step_d() {
    // start: [-n; 0), end: (-n; 0), step = -2
    base_test(START_B, END_D, STEP_D, vec!["b"], false)
}

#[test]
fn cut_test_57_start_c_end_b_step_d() {
    // start: [-n; 0), end: (-n; 0), step = -2
    base_test(START_C, END_B, STEP_D, vec!["c"], false)
}

#[test]
fn cut_test_58_start_c_end_d_step_d() {
    // start: [-n; 0), end: (-n; 0), step = -2
    base_test(START_C, END_D, STEP_D, vec!["c"], false)
}

#[test]
fn cut_test_59_start_b_end_b_step_e() {
    // start: [-n; 0), end: (-n; 0), step = 0
    base_test(START_B, END_B, STEP_E, vec![], false)
}

#[test]
fn cut_test_60_start_b_end_d_step_e() {
    // start: [-n; 0), end: (-n; 0), step = 0
    base_test(START_B, END_D, STEP_E, vec![], false)
}

#[test]
fn cut_test_61_start_c_end_b_step_e() {
    // start: [-n; 0), end: (-n; 0), step = 0
    base_test(START_C, END_B, STEP_E, vec![], false)
}

#[test]
fn cut_test_62_start_c_end_d_step_e() {
    // start: [-n; 0), end: (-n; 0), step = 0
    base_test(START_C, END_D, STEP_E, vec![], false)
}

#[test]
fn cut_test_63_start_a_end_d_step_a_complement() {
    // start: (-inf; -n), end: (0; n], step = 1
    base_test(START_A, END_D, STEP_A, vec![], true)
}

#[test]
fn cut_test_64_start_c_end_d_step_a_complement() {
    // start:[0; end), end: (0; n], step = 1
    base_test(START_C, END_D, STEP_A, vec!["a", "b", "d", "e"], true)
}

#[test]
fn cut_test_65_start_c_end_f_step_c_complement() {
    // start:[0; end), end: (0; n], step = 2
    base_test(START_C, END_F, STEP_C, vec!["a", "b", "d"], true)
}

#[test]
fn cut_test_66_start_c_end_f_step_b_complement() {
    // start:[0; end), end: (0; n], step = -1
    base_test(START_C, END_F, STEP_B, vec!["b", "a"], true)
}

#[test]
fn cut_test_67_start_e_end_e_step_a_complement() {
    // start: (-inf; -n), end: (0; n], step = 1, start >= end
    base_test(START_E, END_E, STEP_A, vec!["a", "b", "c", "d", "e"], true)
}

fn base_test(
    start: i32,
    end: i32,
    step: i32,
    expected_content: Vec<&str>,
    is_showing_complement: bool,
) {
    let range = Range::new(start, end, step);

    let actual_content = cut_line_with_characters(CONTENT, range, is_showing_complement);

    assert_eq!(expected_content, actual_content);
}
