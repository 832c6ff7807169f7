use rand::distributions::range::Range;
use rand::distributions::IndependentSample;
use rand::SeedableRng;

use relation::list::Relation;
use relation::vec_family::{StdVec, VecFamily};

type StdVecRelation = Relation<StdVec<usize>>;

fn test(relation: &Relation<impl VecFamily>, expected_lines: &[&str]) {
    let actual_lines = relation.dump_and_assert();

    for (expected_line, actual_line) in expected_lines.iter().zip(&actual_lines) {
        assert_eq!(
            expected_line, actual_line,
            "expected: {:#?}\nactual:\n{:#?}\n",
            expected_lines, actual_lines,
        );
    }

    assert_eq!(
        expected_lines.len(),
        actual_lines.len(),
        "expected: {:#?}\nactual:\n{:#?}\n",
        expected_lines,
        actual_lines,
    );
}

#[test]
fn test_add() {
    let mut r = StdVecRelation::new(3);

    r.add_edge(0, 1);
    r.add_edge(1, 2);

    test(&r, &["N(0) --E(0)--> N(1)", "N(1) --E(1)--> N(2)"]);
}

#[test]
fn test_add_remove_1() {
    let mut r = StdVecRelation::new(3);

    r.add_edge(0, 1);
    r.add_edge(1, 2);
    r.remove_edges(1);

    test(&r, &["N(0) --E(0)--> N(2)", "free edge E(1)"]);
}

#[test]
fn test_add_remove_0() {
    let mut r = StdVecRelation::new(3);

    r.add_edge(0, 1);
    r.add_edge(1, 2);
    r.remove_edges(0);

    test(&r, &["N(1) --E(1)--> N(2)", "free edge E(0)"]);
}

#[test]
fn test_add_remove_2() {
    let mut r = StdVecRelation::new(3);

    r.add_edge(0, 1);
    r.add_edge(1, 2);
    r.remove_edges(2);

    test(&r, &["N(0) --E(0)--> N(1)", "free edge E(1)"]);
}

#[test]
fn test_add_cycle() {
    let mut r = StdVecRelation::new(3);

    r.add_edge(0, 1);
    r.add_edge(1, 2);
    r.add_edge(2, 0);

    test(&r, &["N(0) --E(0)--> N(1)",
               "N(1) --E(1)--> N(2)",
               "N(2) --E(2)--> N(0)",
              ]);
}

#[test]
fn test_remove_all() {
    let mut r = StdVecRelation::new(3);

    r.add_edge(0, 1);
    r.add_edge(1, 2);
    r.remove_edges(1);

    test(&r, &["N(0) --E(0)--> N(2)", "free edge E(1)"]);
    r.remove_edges(2);
    test(&r, &["free edge E(0)", "free edge E(1)"]);
}

#[test]
fn test_add_remove_cycle() {
    let mut r = StdVecRelation::new(3);

    r.add_edge(0, 1);
    r.add_edge(1, 2);
    r.add_edge(2, 0);
    r.remove_edges(1);

    test(&r, &["N(0) --E(0)--> N(2)",
               "N(2) --E(2)--> N(0)",
               "free edge E(1)",
              ]);
}

#[test]
fn test_remove_all_cycle() {
    let mut r = StdVecRelation::new(3);

    r.add_edge(0, 1);
    r.add_edge(1, 2);
    r.add_edge(2, 0);
    r.remove_edges(1);

    test(&r, &["N(0) --E(0)--> N(2)",
               "N(2) --E(2)--> N(0)",
               "free edge E(1)",
              ]);

    r.remove_edges(0);
    test(&r, &["N(2) --E(2)--> N(2)",
               "free edge E(0)",
               "free edge E(1)",
              ]);
}

// This test has a start graph
//
// 0 --> 2
// 1 --> 2
// 2 --> 3
//
// And wants an end graph
// 0 --> 3
// 1 --> 3
#[test]
fn test_remove_three_incoming_one_outgoing() {
    let mut r = StdVecRelation::new(5);

    r.add_edge(0, 2);
    r.add_edge(1, 2);
    r.add_edge(4, 2);
    r.add_edge(2, 3);

    r.remove_edges(2);
    test(&r, &["N(0) --E(0)--> N(3)",
               "N(1) --E(1)--> N(3)",
               "N(4) --E(2)--> N(3)",
               "free edge E(3)",
              ]);
}

// Start
// 0 --> 2
// 1 --> 2
// 2 --> 3
// 4 --> 2
// 5 --> 3
//
// End graph
// 0 --> 3
// 1 --> 3
// 4 --> 3
// 5 --> 3
#[test]
fn test_remove_three_incoming_one_outgoing_2() {
    let mut r = StdVecRelation::new(6);

    r.add_edge(0, 2);
    r.add_edge(1, 2);
    r.add_edge(4, 2);
    r.add_edge(2, 3);
    r.add_edge(5, 3);

    r.remove_edges(2);
    test(&r, &["N(0) --E(0)--> N(3)",
               "N(1) --E(1)--> N(3)",
               "N(4) --E(2)--> N(3)",
               "N(5) --E(4)--> N(3)",
               "free edge E(3)",
              ]);
}

// This test has a start graph
//
// 0 --> 1
// 1 --> 2
// 1 --> 3
//
// And wants an end graph
// 0 --> 2
// 0 --> 3
#[test]
fn test_remove_one_incoming_two_outgoing() {
    let mut r = StdVecRelation::new(4);

    r.add_edge(0, 1);
    r.add_edge(1, 2);
    r.add_edge(1, 3);

    test(&r, &["N(0) --E(0)--> N(1)",
               "N(1) --E(2)--> N(3)",
               "N(1) --E(1)--> N(2)",
              ]);

    r.remove_edges(1);
    test(&r, &["N(0) --E(1)--> N(2)",
               "N(0) --E(2)--> N(3)",
               "free edge E(0)",
              ]);
}

// Graph From:
// 0 --> 1
// 1 --> 2
// 3 --> 2
//
// Graph To:
// 0 --> 2
// 3 --> 2
//
#[test]
fn test_add_remove_complex_1() {
    let mut r = StdVecRelation::new(4);

    r.add_edge(0, 1);
    r.add_edge(1, 2);
    r.add_edge(3, 2);

    r.remove_edges(1);

    test(&r, &["N(0) --E(0)--> N(2)",
               "N(3) --E(2)--> N(2)",
               "free edge E(1)",
              ]);
}

#[test]
fn test_long_remove_cycle() {
    let mut r = StdVecRelation::new(6);

    r.add_edge(0, 1);
    r.add_edge(1, 2);
    r.add_edge(2, 3);
    r.add_edge(3, 4);
    r.add_edge(4, 0);

    test(&r, &["N(0) --E(0)--> N(1)",
               "N(1) --E(1)--> N(2)",
               "N(2) --E(2)--> N(3)",
               "N(3) --E(3)--> N(4)",
               "N(4) --E(4)--> N(0)",
              ]);

    r.remove_edges(1);
    test(&r, &["N(0) --E(0)--> N(2)",
               "N(2) --E(2)--> N(3)",
               "N(3) --E(3)--> N(4)",
               "N(4) --E(4)--> N(0)",
               "free edge E(1)",
              ]);

    r.remove_edges(3);
    test(&r, &["N(0) --E(0)--> N(2)",
               "N(2) --E(2)--> N(4)",
               "N(4) --E(4)--> N(0)",
               "free edge E(3)",
               "free edge E(1)",
              ]);

    r.remove_edges(0);
    test(&r, &["N(2) --E(2)--> N(4)",
               "N(4) --E(4)--> N(2)",
               "free edge E(0)",
               "free edge E(3)",
               "free edge E(1)",
              ]);
}

#[test]
fn test_multi_in_multi_out() {
    let mut r = StdVecRelation::new(5);

    r.add_edge(0, 2);
    r.add_edge(1, 2);
    r.add_edge(2, 3);
    r.add_edge(2, 4);
    test(&r, &["N(0) --E(0)--> N(2)",
               "N(1) --E(1)--> N(2)",
               "N(2) --E(3)--> N(4)",
               "N(2) --E(2)--> N(3)",
              ]);

    r.remove_edges(2);
    test(&r, &["N(0) --E(3)--> N(3)",
               "N(0) --E(1)--> N(4)",
               "N(1) --E(2)--> N(3)",
               "N(1) --E(0)--> N(4)",
              ]);
}

#[test]
fn scratch_random() {
    let mut r = StdVecRelation::new(1000);
    let range = Range::new(0, 1000);

    let mut rng = rand::StdRng::from_seed(&[1,2,3,4]);
    let rng = &mut rng;

    for _ in 0..300 {
        let (mut src, mut dst) = (range.ind_sample(rng), range.ind_sample(rng));
        while src == dst {
            src = range.ind_sample(rng);
            dst = range.ind_sample(rng);
        }
        println!("r.add_edge({}, {});", src, dst);
        r.add_edge(src, dst);
    }

    for i in 0..1000 {
        println!("r.remove_edges({});", i);
        r.remove_edges(i);
    }
}

#[test]
fn scratch_explicit() {
    // This case started by using the operations from above, and then
    // deleting rows that still made it fail
    let mut r = StdVecRelation::new(1000);
    r.add_edge(449, 10);
    r.add_edge(617, 456);
    r.add_edge(711, 196); // NB
    r.add_edge(417, 720);
    r.add_edge(401, 315);
    r.add_edge(595, 756);
    r.add_edge(736, 210);
    r.add_edge(746, 326);
    r.add_edge(680, 903);
    r.add_edge(196, 873); // NB
    r.add_edge(355, 343);
    r.add_edge(750, 666);
    r.add_edge(10, 873);
    r.add_edge(427, 981);
    r.add_edge(35, 359);
    r.add_edge(391, 215);
    r.remove_edges(0);
    r.remove_edges(1);
    r.remove_edges(2);
    r.remove_edges(3);
    r.remove_edges(4);
    r.remove_edges(5);
    r.remove_edges(6);
    r.remove_edges(7);
    r.remove_edges(8);
    r.remove_edges(9);
    r.remove_edges(10);
    r.remove_edges(11);
    r.remove_edges(12);
    r.remove_edges(13);
    r.remove_edges(14);
    r.remove_edges(15);
    r.remove_edges(16);
    r.remove_edges(17);
    r.remove_edges(18);
    r.remove_edges(19);
    r.remove_edges(20);
    r.remove_edges(21);
    r.remove_edges(22);
    r.remove_edges(23);
    r.remove_edges(24);
    r.remove_edges(25);
    r.remove_edges(26);
    r.remove_edges(27);
    r.remove_edges(28);
    r.remove_edges(29);
    r.remove_edges(30);
    r.remove_edges(31);
    r.remove_edges(32);
    r.remove_edges(33);
    r.remove_edges(34);
    r.remove_edges(35);
    r.remove_edges(36);
    r.remove_edges(37);
    r.remove_edges(38);
    r.remove_edges(39);
    r.remove_edges(40);
    r.remove_edges(41);
    r.remove_edges(42);
    r.remove_edges(43);
    r.remove_edges(44);
    r.remove_edges(45);
    r.remove_edges(46);
    r.remove_edges(47);
    r.remove_edges(48);
    r.remove_edges(49);
    r.remove_edges(50);
    r.remove_edges(51);
    r.remove_edges(52);
    r.remove_edges(53);
    r.remove_edges(54);
    r.remove_edges(55);
    r.remove_edges(56);
    r.remove_edges(57);
    r.remove_edges(58);
    r.remove_edges(59);
    r.remove_edges(60);
    r.remove_edges(61);
    r.remove_edges(62);
    r.remove_edges(63);
    r.remove_edges(64);
    r.remove_edges(65);
    r.remove_edges(66);
    r.remove_edges(67);
    r.remove_edges(68);
    r.remove_edges(69);
    r.remove_edges(70);
    r.remove_edges(71);
    r.remove_edges(72);
    r.remove_edges(73);
    r.remove_edges(74);
    r.remove_edges(75);
    r.remove_edges(76);
    r.remove_edges(77);
    r.remove_edges(78);
    r.remove_edges(79);
    r.remove_edges(80);
    r.remove_edges(81);
    r.remove_edges(82);
    r.remove_edges(83);
    r.remove_edges(84);
    r.remove_edges(85);
    r.remove_edges(86);
    r.remove_edges(87);
    r.remove_edges(88);
    r.remove_edges(89);
    r.remove_edges(90);
    r.remove_edges(91);
    r.remove_edges(92);
    r.remove_edges(93);
    r.remove_edges(94);
    r.remove_edges(95);
    r.remove_edges(96);
    r.remove_edges(97);
    r.remove_edges(98);
    r.remove_edges(99);
    r.remove_edges(100);
    r.remove_edges(101);
    r.remove_edges(102);
    r.remove_edges(103);
    r.remove_edges(104);
    r.remove_edges(105);
    r.remove_edges(106);
    r.remove_edges(107);
    r.remove_edges(108);
    r.remove_edges(109);
    r.remove_edges(110);
    r.remove_edges(111);
    r.remove_edges(112);
    r.remove_edges(113);
    r.remove_edges(114);
    r.remove_edges(115);
    r.remove_edges(116);
    r.remove_edges(117);
    r.remove_edges(118);
    r.remove_edges(119);
    r.remove_edges(120);
    r.remove_edges(121);
    r.remove_edges(122);
    r.remove_edges(123);
    r.remove_edges(124);
    r.remove_edges(125);
    r.remove_edges(126);
    r.remove_edges(127);
    r.remove_edges(128);
    r.remove_edges(129);
    r.remove_edges(130);
    r.remove_edges(131);
    r.remove_edges(132);
    r.remove_edges(133);
    r.remove_edges(134);
    r.remove_edges(135);
    r.remove_edges(136);
    r.remove_edges(137);
    r.remove_edges(138);
    r.remove_edges(139);
    r.remove_edges(140);
    r.remove_edges(141);
    r.remove_edges(142);
    r.remove_edges(143);
    r.remove_edges(144);
    r.remove_edges(145);
    r.remove_edges(146);
    r.remove_edges(147);
    r.remove_edges(148);
    r.remove_edges(149);
    r.remove_edges(150);
    r.remove_edges(151);
    r.remove_edges(152);
    r.remove_edges(153);
    r.remove_edges(154);
    r.remove_edges(155);
    r.remove_edges(156);
    r.remove_edges(157);
    r.remove_edges(158);
    r.remove_edges(159);
    r.remove_edges(160);
    r.remove_edges(161);
    r.remove_edges(162);
    r.remove_edges(163);
    r.remove_edges(164);
    r.remove_edges(165);
    r.remove_edges(166);
    r.remove_edges(167);
    r.remove_edges(168);
    r.remove_edges(169);
    r.remove_edges(170);
    r.remove_edges(171);
    r.remove_edges(172);
    r.remove_edges(173);
    r.remove_edges(174);
    r.remove_edges(175);
    r.remove_edges(176);
    r.remove_edges(177);
    r.remove_edges(178);
    r.remove_edges(179);
    r.remove_edges(180);
    r.remove_edges(181);
    r.remove_edges(182);
    r.remove_edges(183);
    r.remove_edges(184);
    r.remove_edges(185);
    r.remove_edges(186);
    r.remove_edges(187);
    r.remove_edges(188);
    r.remove_edges(189);
    r.remove_edges(190);
    r.remove_edges(191);
    r.remove_edges(192);
    r.remove_edges(193);
    r.remove_edges(194);
    r.remove_edges(195);
    r.remove_edges(196);
}
