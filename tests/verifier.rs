use loan_verifier::codec::{decode_g1, decode_g2, decode_public_inputs, VerifyError};
use loan_verifier::curve::{g2_negate, g2_proj_add, g2_proj_double, g2_proj_mul, Fq2, G1Point, G2Point, G2Proj};
use loan_verifier::field::{base_modulus_word, parse_reduced};
use loan_verifier::encode::{encode_g1, encode_g2, encode_proof, encode_verification_key, to_decimal};
use loan_verifier::groth16::{
    decode_proof, decode_verification_key, g1_add, g1_is_identity, g1_mul, g2_is_identity,
    multi_pairing_check, reduce_scalar, verify, verify_encoded, Proof, RawProof, RawVerificationKey,
    VerificationKey,
};

fn texts(v: Vec<&str>) -> Vec<String> {
    v.into_iter().map(|s| s.to_string()).collect()
}

fn pairs(v: Vec<Vec<&str>>) -> Vec<Vec<String>> {
    v.into_iter().map(texts).collect()
}

/// A key for the circuit `x * x = y` with `y` public, built from known trapdoor values.
fn square_key() -> RawVerificationKey {
    RawVerificationKey {
        n_public: 1,
        vk_alpha_1: texts(vec!["19033251874843656108471242320417533909414939332036131356573128480367742634479", "20792135454608030201903199625673964159744755218442260092768620403349374102584", "1"]),
        vk_beta_2: pairs(vec![vec!["16137324789686743234629608741537369181251990815455155257427276976918350071287", "280672898440571232725436467950720547829638241593507531241322547969961007057"], vec!["12136420650226457477690750437223209427924916790606163705631661913973995426040", "17641806683785498955878869918183868440783188556637975525088932771694068429840"], vec!["1", "0"]]),
        vk_gamma_2: pairs(vec![vec!["5571996575954125260736435753480252954196528247617148060558631406349160775832", "15577308679414974642168536368096450326086203870944559758314800234684337462316"], vec!["11302850696403459405052467769487663388868168369318255751101607320138145101673", "3949072583587836530885517791345259776526014207612010591436388615095276192789"], vec!["1", "0"]]),
        vk_delta_2: pairs(vec![vec!["9858527670347636692234166401928174269791741769432234490836150038270445961293", "16849508654450081119304017172227396057124361478955927014163046732185922553166"], vec!["20108569381576808061469857349769609506804248011311707108758562062556705125393", "13963340053412710066602628493986245254268869857782169725667227673717164818367"], vec!["1", "0"]]),
        ic: vec![texts(vec!["13640322012419910779160519747081036978280854528525356142388876682012724302321", "18538714940515721848968265449014632110570653454278528879450713650630487487382", "1"]), texts(vec!["9961482077405933653703920413004101065199760487639777914203301284159532567165", "5862436715964027487145075334372980905100234227901145792980374837265196864691", "1"])],
    }
}

/// A proof for `y = 9` under `square_key`.
fn square_proof() -> RawProof {
    RawProof {
        pi_a: texts(vec!["9366015879375004571250438303432407971238053874512316318402267084951246439740", "18456548560916331602912926306132216314029103442570467520030714287463663922742", "1"]),
        pi_b: pairs(vec![vec!["21740656624264531918905957436349160317178065932174634873434489096384118284193", "2019050928575347605638490762886992026922085924959710776569383806797571971069"], vec!["768940004759184688611731872359665907813921273999645987556749132562407031847", "9386111668168143378799867099066976687163019156923561176364278935596535020065"], vec!["1", "0"]]),
        pi_c: texts(vec!["8362462723203541812585218332550937415318748855413164628759538067424951667663", "7548182517980352049113721375716304653800155489549823897013437000914402689197", "1"]),
    }
}

fn g1_of(v: Vec<&str>) -> G1Point {
    decode_g1(&texts(v)).unwrap()
}

fn g2_of(v: Vec<Vec<&str>>) -> G2Point {
    decode_g2(&pairs(v)).unwrap()
}

/// A point of the twisted curve built from its affine coordinates, with no test.
fn g2_direct(v: Vec<Vec<&str>>) -> G2Point {
    let m = base_modulus_word();
    let f = |t: &str| parse_reduced(t.as_bytes(), &m).unwrap();
    G2Point { x: Fq2 { c0: f(v[0][0]), c1: f(v[0][1]) }, y: Fq2 { c0: f(v[1][0]), c1: f(v[1][1]) } }
}

/// `square_key` built point by point, with the twisted-curve points taken as they are.
fn square_vk() -> VerificationKey {
    let raw = square_key();
    let g2 = |c: &Vec<Vec<String>>| g2_direct(c.iter().map(|p| p.iter().map(|t| t.as_str()).collect()).collect());
    VerificationKey {
        alpha_g1: decode_g1(&raw.vk_alpha_1).unwrap(),
        beta_g2: g2(&raw.vk_beta_2),
        gamma_g2: g2(&raw.vk_gamma_2),
        delta_g2: g2(&raw.vk_delta_2),
        ic: raw.ic.iter().map(|c| decode_g1(c).unwrap()).collect(),
    }
}

fn square_pf() -> Proof {
    let raw = square_proof();
    let b = g2_direct(raw.pi_b.iter().map(|p| p.iter().map(|t| t.as_str()).collect()).collect());
    Proof { a: decode_g1(&raw.pi_a).unwrap(), b, c: decode_g1(&raw.pi_c).unwrap() }
}

fn g2_generator() -> G2Point {
    g2_direct(vec![
        vec!["10857046999023057135944570762232829481370756359578518086990519993285655852781", "11559732032986387107991004021392285783925812861821192530917403151452391805634"],
        vec!["8495653923123431417604973247489272438418190587263600148770280649306958101930", "4082367875863433681332203403145435568316851327593401208105741076214120093531"],
        vec!["1", "0"],
    ])
}

fn g1_generator() -> G1Point {
    g1_of(vec!["1", "2", "1"])
}

const A_P: [&str; 3] = ["10744596414106452074759370245733544594153395043370666422502510773307029471145", "848677436511517736191562425154572367705380862894644942948681172815252343932", "1"];
const B_Q: [[&str; 2]; 3] = [["15512671280233143720612069991584289591749188907863576513414377951116606878472", "18551411094430470096460536606940536822990217226529861227533666875800903099477"], ["13376798835316611669264291046140500151806347092962367781523498857425536295743", "1711576522631428957817575436337311654689480489843856945284031697403898093784"], ["1", "0"]];
const NEG_AB_P: [&str; 3] = ["19603121658858655875247255127227546065511167701958109023745805570144594432590", "3491599665530032998186195341925312929176047934868407297538932117905377596330", "1"];
const AB_P: [&str; 3] = ["19603121658858655875247255127227546065511167701958109023745805570144594432590", "18396643206309242224060210403331962159520263222429416365150105776739848612253", "1"];
const NEG_G1: [&str; 3] = ["1", "21888242871839275222246405745257275088696311157297823662689037894645226208581", "1"];

fn b_q() -> G2Point {
    g2_direct(B_Q.iter().map(|p| p.to_vec()).collect())
}

#[test]
fn square_proof_accepts_nine() {
    let r = verify_encoded(&square_key(), &square_proof(), &texts(vec!["9"]));
    assert_eq!(r, Ok(true));
}

#[test]
fn square_proof_rejects_ten() {
    let r = verify_encoded(&square_key(), &square_proof(), &texts(vec!["10"]));
    assert_eq!(r, Ok(false));
}

#[test]
fn verify_twice_gives_same_answer() {
    let vk = square_vk();
    let pf = square_pf();
    let xs = decode_public_inputs(&texts(vec!["9"])).unwrap();
    let first = verify(&vk, &pf, &xs);
    let second = verify(&vk, &pf, &xs);
    assert_eq!(first, Ok(true));
    assert_eq!(first, second);
}

#[test]
fn short_public_inputs_are_a_count_mismatch() {
    let r = verify_encoded(&square_key(), &square_proof(), &texts(vec![]));
    assert_eq!(r, Err(VerifyError::PublicInputCountMismatch));
    assert_eq!(verify(&square_vk(), &square_pf(), &vec![]), Err(VerifyError::PublicInputCountMismatch));
}

#[test]
fn key_with_wrong_ic_count_is_refused() {
    let mut key = square_key();
    key.n_public = 2;
    assert!(matches!(decode_verification_key(&key), Err(VerifyError::PublicInputCountMismatch)));
}

#[test]
fn flipped_bit_in_proof_is_not_accepted() {
    // Toggling the last decimal digit between 2k and 2k+1 flips the lowest bit of the value.
    fn flip(t: &mut String) {
        let last = t.pop().unwrap();
        t.push(((last as u8) ^ 1) as char);
    }
    let raw = square_proof();
    let vk = square_vk();
    let xs = decode_public_inputs(&texts(vec!["9"])).unwrap();
    for coord in 0..2 {
        for which in 0..2 {
            let mut c = if which == 0 { raw.pi_a.clone() } else { raw.pi_c.clone() };
            flip(&mut c[coord]);
            match decode_g1(&c) {
                Err(e) => assert_eq!(e, VerifyError::InvalidPoint),
                Ok(p) => {
                    let mut pf = square_pf();
                    if which == 0 { pf.a = p } else { pf.c = p }
                    assert_eq!(verify(&vk, &pf, &xs), Ok(false));
                }
            }
        }
        for part in 0..2 {
            let mut b = raw.pi_b.clone();
            flip(&mut b[coord][part]);
            match decode_g2(&b) {
                Err(e) => assert_eq!(e, VerifyError::InvalidPoint),
                Ok(q) => {
                    let mut pf = square_pf();
                    pf.b = q;
                    assert_eq!(verify(&vk, &pf, &xs), Ok(false));
                }
            }
        }
    }
    // Negating A keeps a valid point but breaks the equation.
    let mut proof = square_pf();
    proof.a = loan_verifier::curve::g1_negate(&proof.a);
    assert_eq!(verify(&vk, &proof, &xs), Ok(false));
}

#[test]
fn non_numeric_coordinate_is_malformed() {
    let mut key = square_key();
    key.vk_alpha_1[0] = "12a4".to_string();
    assert!(matches!(decode_verification_key(&key), Err(VerifyError::MalformedField)));
    let mut key = square_key();
    key.vk_beta_2[1][0] = "".to_string();
    assert!(matches!(decode_verification_key(&key), Err(VerifyError::MalformedField)));
}

#[test]
fn coordinate_at_modulus_is_malformed() {
    let p = "21888242871839275222246405745257275088696311157297823662689037894645226208583";
    assert!(matches!(decode_g1(&texts(vec![p, "2", "1"])), Err(VerifyError::MalformedField)));
    let p_minus_one = "21888242871839275222246405745257275088696311157297823662689037894645226208582";
    // (p - 1, 2) is off the curve, so the text parses and the point is refused.
    assert!(matches!(decode_g1(&texts(vec![p_minus_one, "2", "1"])), Err(VerifyError::InvalidPoint)));
    let huge = "1000000000000000000000000000000000000000000000000000000000000000000000000000000000";
    assert!(matches!(decode_g1(&texts(vec![huge, "2", "1"])), Err(VerifyError::MalformedField)));
}

#[test]
fn scalar_at_group_order_is_malformed() {
    let r = "21888242871839275222246405745257275088548364400416034343698204186575808495617";
    assert!(matches!(decode_public_inputs(&texts(vec![r])), Err(VerifyError::MalformedField)));
    let below = "21888242871839275222246405745257275088548364400416034343698204186575808495616";
    let xs = decode_public_inputs(&texts(vec![below, "7"])).unwrap();
    assert_eq!(xs.len(), 2);
    assert_eq!(xs[1][0], 7);
    assert_eq!(xs[0][0], 0);
    assert_eq!(xs[0][31], 48);
}

#[test]
fn point_off_curve_is_invalid() {
    assert!(matches!(decode_g1(&texts(vec!["1", "3", "1"])), Err(VerifyError::InvalidPoint)));
    assert!(matches!(decode_g1(&texts(vec!["0", "0", "1"])), Err(VerifyError::InvalidPoint)));
    assert!(matches!(decode_g1(&texts(vec!["1", "2", "2"])), Err(VerifyError::InvalidPoint)));
    let bad = pairs(vec![vec!["1", "0"], vec!["1", "0"], vec!["1", "0"]]);
    assert!(matches!(decode_g2(&bad), Err(VerifyError::InvalidPoint)));
    let short = pairs(vec![vec!["1", "0"], vec!["1", "0"]]);
    assert!(matches!(decode_g2(&short), Err(VerifyError::MalformedField)));
}

#[test]
fn generators_and_infinity_decode() {
    let g = g1_generator();
    assert_eq!(g.x[0], 1);
    assert_eq!(g.y[0], 2);
    let inf = g1_of(vec!["0", "1", "0"]);
    assert!(inf.x.iter().all(|b| *b == 0) && inf.y.iter().all(|b| *b == 0));
    let q = g2_generator();
    assert_eq!(q.x.c0.len(), 32);
    let inf2 = g2_of(vec![vec!["0", "0"], vec!["1", "0"], vec!["0", "0"]]);
    assert!(inf2.y.c0.iter().all(|b| *b == 0));
}

#[test]
fn pairing_is_bilinear() {
    // e(5·P, 7·Q) · e(-35·P, Q) = 1
    let ok = multi_pairing_check(&vec![g1_of(A_P.to_vec()), g1_of(NEG_AB_P.to_vec())], &vec![b_q(), g2_generator()]);
    assert_eq!(ok, Ok(true));
    // e(5·P, 7·Q) · e(-P, Q) is not one.
    let not = multi_pairing_check(&vec![g1_of(A_P.to_vec()), g1_of(NEG_G1.to_vec())], &vec![b_q(), g2_generator()]);
    assert_eq!(not, Ok(false));
}

#[test]
fn multi_pairing_matches_product() {
    // e(35·P, Q) · e(5·P, 7·Q) · e(-35·P, Q) · e(-35·P, Q) = 1
    let g1 = vec![g1_of(AB_P.to_vec()), g1_of(A_P.to_vec()), g1_of(NEG_AB_P.to_vec()), g1_of(NEG_AB_P.to_vec())];
    let g2 = vec![g2_generator(), b_q(), g2_generator(), g2_generator()];
    assert_eq!(multi_pairing_check(&g1, &g2), Ok(true));
    let empty = multi_pairing_check(&vec![], &vec![]);
    assert_eq!(empty, Ok(true));
}

#[test]
fn pairing_refuses_points_off_curve() {
    let bad = G1Point { x: g1_generator().x, y: g1_of(A_P.to_vec()).y };
    assert_eq!(multi_pairing_check(&vec![bad], &vec![g2_generator()]), Err(VerifyError::InvalidPoint));
}

#[test]
fn key_round_trips_through_text() {
    let raw = square_key();
    let vk = decode_verification_key(&raw).unwrap();
    let again = encode_verification_key(&vk);
    assert_eq!(again.n_public, 1);
    assert_eq!(again.vk_alpha_1, raw.vk_alpha_1);
    assert_eq!(again.vk_beta_2, raw.vk_beta_2);
    assert_eq!(again.vk_gamma_2, raw.vk_gamma_2);
    assert_eq!(again.vk_delta_2, raw.vk_delta_2);
    assert_eq!(again.ic, raw.ic);
}

#[test]
fn proof_round_trips_through_text() {
    let raw = square_proof();
    let pf = square_pf();
    let again = encode_proof(&pf);
    assert!(decode_proof(&again).is_ok());
    assert_eq!(again.pi_a, raw.pi_a);
    assert_eq!(again.pi_b, raw.pi_b);
    assert_eq!(again.pi_c, raw.pi_c);
}

#[test]
fn infinity_encodes_projectively() {
    let inf = g1_of(vec!["5", "7", "0"]);
    assert_eq!(encode_g1(&inf), texts(vec!["0", "1", "0"]));
    let inf2 = g2_of(vec![vec!["0", "0"], vec!["1", "0"], vec!["0", "0"]]);
    assert_eq!(encode_g2(&inf2), pairs(vec![vec!["0", "0"], vec!["1", "0"], vec!["0", "0"]]));
}

#[test]
fn decimal_text_of_words() {
    let mut w = vec![0u8; 32];
    assert_eq!(to_decimal(&w), "0");
    w[0] = 210;
    w[1] = 4;
    assert_eq!(to_decimal(&w), "1234");
    let all = vec![255u8; 32];
    assert_eq!(
        to_decimal(&all),
        "115792089237316195423570985008687907853269984665640564039457584007913129639935"
    );
}

fn scalar_word(text: &str) -> Vec<u8> {
    let mut w = vec![0u8; 32];
    let mut digits: Vec<u8> = text.bytes().map(|b| b - 48).collect();
    // long division by 256, lowest byte first
    for byte in w.iter_mut() {
        let mut rem: u32 = 0;
        let mut next = Vec::new();
        for d in &digits {
            let cur = rem * 10 + *d as u32;
            let q = cur / 256;
            rem = cur % 256;
            if !next.is_empty() || q != 0 {
                next.push(q as u8);
            }
        }
        *byte = rem as u8;
        digits = next;
    }
    w
}

#[test]
fn scalars_reduce_modulo_group_order() {
    let all = vec![255u8; 32];
    let expected = scalar_word("6350874878119819312338956282401532410528162663560392320966563075034087161850");
    assert_eq!(reduce_scalar(&all), expected);
    assert_eq!(reduce_scalar(&scalar_word("5")), scalar_word("5"));
    let r_plus_five = scalar_word("21888242871839275222246405745257275088548364400416034343698204186575808495622");
    assert_eq!(reduce_scalar(&r_plus_five), scalar_word("5"));
}

#[test]
fn first_group_operations() {
    let g = g1_generator();
    let five_g = g1_mul(&g, &scalar_word("5")).unwrap();
    let expected = g1_of(A_P.to_vec());
    assert_eq!((five_g.x.clone(), five_g.y.clone()), (expected.x.clone(), expected.y.clone()));
    let r_plus_five = scalar_word("21888242871839275222246405745257275088548364400416034343698204186575808495622");
    let again = g1_mul(&g, &r_plus_five).unwrap();
    assert_eq!(again.x, expected.x);
    let zero = g1_mul(&g, &vec![0u8; 32]).unwrap();
    assert!(g1_is_identity(&zero));
    let neg = loan_verifier::curve::g1_negate(&g);
    let sum = g1_add(&g, &neg).unwrap();
    assert!(g1_is_identity(&sum));
    let inf = g1_of(vec!["0", "1", "0"]);
    let same = g1_add(&g, &inf).unwrap();
    assert_eq!((same.x, same.y), (g.x.clone(), g.y.clone()));
    let off = G1Point { x: g.x.clone(), y: g.x.clone() };
    assert!(matches!(g1_add(&g, &off), Err(VerifyError::InvalidPoint)));
    assert!(!g2_is_identity(&g2_generator()));
}

#[test]
fn bilinearity_with_computed_points() {
    // e(5·P, 7·Q) = e(P, Q)^35: e(5·P, 7·Q) · e((r - 35)·P, Q) = 1
    let g = g1_generator();
    let a_p = g1_mul(&g, &scalar_word("5")).unwrap();
    let minus_ab = scalar_word("21888242871839275222246405745257275088548364400416034343698204186575808495582");
    let neg_ab_p = g1_mul(&g, &minus_ab).unwrap();
    assert_eq!(multi_pairing_check(&vec![a_p, neg_ab_p], &vec![b_q(), g2_generator()]), Ok(true));
}

const OUTSIDE_X: [&str; 2] = ["1", "0"];
const OUTSIDE_Y: [&str; 2] = [
    "18278151005453108793778860132295291098363647455926340152056652516292830556603",
    "5912654199736721486680175016176231956195085055698687135131307249486702594212",
];

#[test]
fn twist_point_outside_subgroup_is_invalid() {
    let q = g2_direct(vec![OUTSIDE_X.to_vec(), OUTSIDE_Y.to_vec()]);
    assert!(loan_verifier::curve::g2_is_valid(&q));
    assert!(!loan_verifier::curve::g2_in_subgroup_exec(&q));
    let raw = pairs(vec![OUTSIDE_X.to_vec(), OUTSIDE_Y.to_vec(), vec!["1", "0"]]);
    assert!(matches!(decode_g2(&raw), Err(VerifyError::InvalidPoint)));
    assert_eq!(multi_pairing_check(&vec![g1_generator()], &vec![q]), Err(VerifyError::InvalidPoint));
    let mut proof = square_proof();
    proof.pi_b = raw;
    assert_eq!(decode_proof(&proof).err(), Some(VerifyError::InvalidPoint));
}

#[test]
fn generator_lies_in_subgroup() {
    assert!(loan_verifier::curve::g2_in_subgroup_exec(&g2_generator()));
    let inf = g2_direct(vec![vec!["0", "0"], vec!["0", "0"]]);
    assert!(loan_verifier::curve::g2_in_subgroup_exec(&inf));
}

fn fq2_of(c0: &str, c1: &str) -> Fq2 {
    let m = base_modulus_word();
    Fq2 { c0: parse_reduced(c0.as_bytes(), &m).unwrap(), c1: parse_reduced(c1.as_bytes(), &m).unwrap() }
}

fn generator_proj() -> G2Proj {
    let g = g2_generator();
    G2Proj { x: g.x, y: g.y, z: fq2_of("1", "0") }
}

fn same_fq2(a: &Fq2, b: &Fq2) -> bool {
    a.c0 == b.c0 && a.c1 == b.c1
}

#[test]
fn twisted_curve_doubling_and_addition() {
    let p = generator_proj();
    let d = g2_proj_double(&p);
    let x = fq2_of("18064657650266314310872833882734510304469342224960895762840452673540398385663", "15767209469806156760211170373387620603270210844572625444480773861832148323813");
    let y = fq2_of("18350387758438165722514006433324734852126505429007818091896560652419680779208", "2361120538552305763462588552289584032113666280040005078430227626567900900889");
    let z = fq2_of("11295011439305748432050915375304030887315222387144299555868531462511479541127", "21586188435259680269345972498488110271568572496353012928929868286300284796401");
    assert!(same_fq2(&d.x, &x) && same_fq2(&d.y, &y) && same_fq2(&d.z, &z));
    let s = g2_proj_add(&p, &p);
    assert!(same_fq2(&s.x, &x) && same_fq2(&s.y, &y) && same_fq2(&s.z, &z));
}

#[test]
fn twisted_curve_scalar_multiple() {
    let p = generator_proj();
    let mut five = vec![0u8; 32];
    five[0] = 5;
    let r = g2_proj_mul(&p, &five);
    let x = fq2_of("11300277868485309450601095894074778014724522210319682127277569187403842335509", "10145977654820356887615508955649672915199732959830845879858632124167282358921");
    let y = fq2_of("6931703207214950720826608428410646683711240738445461125136199000898764819666", "3144396897656638073189975917436520055286148410644739154305594723781671248723");
    let z = fq2_of("18210291738419130285141343922712901468546502503910728245880755970339147752736", "3173377254364772103013114432356999505485556041977258417450826768599045066950");
    assert!(same_fq2(&r.x, &x) && same_fq2(&r.y, &y) && same_fq2(&r.z, &z));
    let zero = g2_proj_mul(&p, &vec![0u8; 32]);
    assert!(zero.z.c0.iter().all(|b| *b == 0) && zero.x.c0.iter().all(|b| *b == 0));
    let one = vec![1u8].into_iter().chain(vec![0u8; 31]).collect::<Vec<u8>>();
    let same = g2_proj_mul(&p, &one);
    assert!(same_fq2(&same.x, &p.x) && same_fq2(&same.z, &p.z));
}

#[test]
fn twisted_curve_negation() {
    let g = g2_generator();
    let n = g2_negate(&g);
    assert!(same_fq2(&n.x, &g.x));
    let m = base_modulus_word();
    assert_eq!(loan_verifier::field::mod_add(&n.y.c0, &g.y.c0, &m), vec![0u8; 32]);
    assert_eq!(loan_verifier::field::mod_add(&n.y.c1, &g.y.c1, &m), vec![0u8; 32]);
    assert!(loan_verifier::curve::g2_is_valid(&n));
}
