use numerics::bigint::BigInt;
use numerics::digit::{to_lo_hi, BigDigit, DoubleBigDigit, DIGIT_MAX, DIGIT_SIZE};
use numerics::div::{normalization_shift_size, short_divmod};
use numerics::errors::BigIntParseError;
use numerics::kernel::{dsub, k_mul3, n_mul3};
use numerics::ops::{naive_add, naive_mul, naive_sub, strict_pos_overflow_add};
use numerics::rchunks::RChunks;
use numerics::sign::Sign;
use rand::Rng;

const ADD_TEST_VECTOR: &[&str] = &[
    "167257127807797823654121235096796590984676 -4978263128375517194659657877558179338648398614130177730417702016467024788056988563692391380145290376876075 -4978263128375517194659657877558179338648398614130177730417702016299767660249190740038270145048493785891399",
    "358409929 79643560751866140317797656177278523141347289935102952352070673638443558 79643560751866140317797656177278523141347289935102952352070673996853487",
    "44882573746242243556658616132136394458940944627799636264685419892366098093 90391400832913 44882573746242243556658616132136394458940944627799636264685510283766931006",
    "924825184865305515711750196302806817425146852818 -79413374465885423125755173901384931490987764193327394378893160367237998088664543 -79413374465885423125755173901384006665802898887811682628696857560420572941811725",
    "73848844207039015760324487138810231717485184941 -51121836719 73848844207039015760324487138810231666363348222",
    "-98196760443521538141365055682123113641032675460329421878248734016816691357464954697274372276286844026090029119534 -26698281853404006474359984050941935594052829 -98196760443521538141365055682123113641032675460329421878248734016816718055746808101280846636270894968025623172363",
    "0 5 5",
    "7 -7 0",
];

const SUB_TEST_VECTOR: &[&str] = &[
    "-4984085837038187406746749028192900519216954612152205575280965 -8110335318073025852148525754551167826 -4984085837038187406746740917857582446191102463626451024113139",
    "-572 5650739542765569653048 -5650739542765569653620",
    "2280923485483244908008106689 -348573048050635114028673079550929101858267829979036 348573048050635114028675360474414585103175838085725",
    "-6154452152057058509382500148052080604590547476682769 2352296936274597013577725304207068932873629682580265750647459106234030258254503920624787277 -2352296936274597013577725304207068932879784134732322809156841606382082338859094468101470046",
    "40594232689669277302 -339709986766941613961070312946927482446732917871600131429796910 339709986766941613961070312946927482446732958465832821099074212",
    "-883294098813391539784427116566685019014247585810721691484268975832854 700142686544008293178149193440280394708919437720068 -883294098813391540484569803110693312192396779251002086193188413552922",
    "0 5 -5",
    "-3 -3 0",
];

const MUL_TEST_VECTOR: &[&str] = &[
    "-3019051196266914105897341 807249157503126356729 -2437126534645272188133138870335244670618557589",
    "89766133623240 -474051261039363355673823710466303421160248359061949494594535312429468 -42553748842724917150915581602425574233244812716499900872825240939838365725785636320",
    "-58003578222988920177 -8646541225905859 501530330355129004394163317067617043",
    "361705281921373142030338035412061796599647619657800307112830 -753950985372977859371715155 -272708053719230034760794757470189181224075082700923993408049843720516092948463205938650",
    "6009881325690701029 60234990798708483668030329695265417788178414593478693876140425884534543152291461087273275226205733 362005146354309320242036459509706818407225340127864804106912559150836947915309327086700467834452095367576732548799257",
    "-9895234425680062017152331418560716824291162390 -8478955190218593337313628636803915120288851176709672147496914121440998433508328101 83901249292049663436465741636482941405998862798382495996120839619604436639062689704729752128932723029683853476229212118791321390",
    "0 5 0",
    "1606938044258990275541962092341162602522202993782792835301377 369988485035126972924700782451696644186473100389722973815184405301748249 594548572540693628849860287507659082019984411858745114665626821552216677918041575971519355915391416186854409113752629807620897038873",
];

const DIV_TEST_VECTOR: &[&str] = &[
    "9054227995044233917452675385905232115186522300965742851035872270408004453577704809993216771845 95833621292839875461020749819847147954871138375915665178576707 94478616928991209694950406227387 89506095944491884799224731011142886260838912661420239153097236",
    "-22143796551649874080489058405994207132657972941900217103833869370545557862257066749336384258842060657 -2537519495 8726552286704648186550802600235474105257257517897499780128337248713652882598668172729204691 415890388",
    "32349057383945164082181502149113965682220406454694750916290778596740098535917448504878564524036318450331 114 283763661262676877913872825869420751598424618023638165932375250848597355578223232498934776526634372371 37",
    "747071289231064771472883126588402890319352089570725000185961034634984737889536756586817519991161789471037911706093612936 -58572178702903766467682869369547987577689823706573412841580699211211313033940109955052140962561805 -12754712318632396468070 51867955781532683935378200737394602134325491513303217535814759748669752219938003808066125009546586",
    "700330817123121424632956010069425282853804171331306874816703099595636843568164136448946712061187444440648 6955523025968500841755575646370808326228224601423990537035894904376397584623498565589915274983976965657775048364 0 700330817123121424632956010069425282853804171331306874816703099595636843568164136448946712061187444440648",
    "772586964110543684710557732755919055176880 2630787225 293671398723833959894098897624044 1247138980",
    "-98646701065524687024268225720079188010205418384748923726518483242118123491542066907161012 -913495727 107988136287718713132270870184463586451133359690853730426391456171658834143120264 703950916",
    "45429922366104254029447369299148919948517868443380247549268843629036441277680838903977848437038273125 883915428883714609286046039402597696940026051058564848871525 51396231903630324499727685290586487303900 24314737408411231720908243599838973880622392626782306825625",
    "100000000000000000000000000000000000000000000012345 100000000000000000007 999999999999999999930000000000 490000012345",
    "-10000000000000000000000000000000000000000 977 -10235414534288638689866939611054247698 946",
    "12 12 1 0",
    "5 1000000000000000000000000000000 0 5",
];

fn big(s: &str) -> BigInt {
    BigInt::from_str(s).unwrap()
}

fn words(line: &str) -> Vec<BigInt> {
    line.split_whitespace().map(big).collect()
}

fn scalar_mul_case() {
    let y: u32 = 915327;

    let a = BigInt {
        sign: Sign::Positive,
        digits: vec![3059078384, 2360247638, 2634550291, 6],
    };
    let b = BigInt {
        sign: Sign::Positive,
        digits: vec![356004624, 4070707789, 1201864523, 6053427],
    };

    assert_eq!(a * y, b);
}

fn add_case() {
    let a: BigDigit = 0;
    let a = a.wrapping_sub(1);

    let a_big = BigInt::from(a);
    let b_big = BigInt::from(a);
    let c_big = a_big + b_big;

    let z: BigDigit = 0;
    let z = z.wrapping_sub(2);

    let c_fixed = BigInt {
        sign: Sign::Positive,
        digits: vec![z, 1],
    };

    assert_eq!(c_big, c_fixed);
}

#[test]
fn arithmetic_add_test_1() {
    add_case();
}

#[test]
fn mod_add_test_1() {
    add_case();
}

#[test]
fn add_add_test_1() {
    add_case();
}

#[test]
fn arithmetic_scalar_mul_test_1() {
    scalar_mul_case();
}

#[test]
fn mod_scalar_mul_test_1() {
    scalar_mul_case();
}

#[test]
fn mul_scalar_mul_test_1() {
    scalar_mul_case();
}

#[test]
fn lo_hi_digit_test() {
    let mut a: DoubleBigDigit = 2;
    a = a.pow(DIGIT_SIZE as u32 + 2);

    assert_eq!([0, 4], to_lo_hi(a));
}

#[test]
fn binary_format_test_1() {
    let s = "0b1001010101011011101101010101";
    let s_int = BigInt::from_str(s).unwrap();
    let s_to_str = s_int.fmt_binary(false, true);
    assert_eq!(s_to_str, s);
}

#[test]
fn display_involution_test() {
    let s = "9802347092384702938472093847234820923487";
    let s_toint = BigInt::from_str(s).unwrap();
    let s_toint_tostring = s_toint.to_string();
    assert_eq!(s, s_toint_tostring);
}

#[test]
fn trim_test() {
    let mut z = BigInt {
        sign: Sign::Positive,
        digits: vec![0; 50],
    };
    z.trim();
    assert!(z.is_zero());
}

#[test]
fn from_str_radix_test_1() {
    let s = "22209053970854587616243584284722270";
    let a = BigInt {
        sign: Sign::Positive,
        digits: vec![779322462, 594349670, 2880689586, 280317],
    };
    let b = BigInt::from_str(s).unwrap();
    assert_eq!(a, b);
}

#[test]
fn from_str_radix_test_2() {
    let s = "-22209053970854587616243584284722270";
    let a = BigInt {
        sign: Sign::Negative,
        digits: vec![779322462, 594349670, 2880689586, 280317],
    };
    let b = BigInt::from_str(s).unwrap();
    assert_eq!(a, b);
}

#[test]
fn normalization_test() {
    let t: BigDigit = 9274;
    let s = BigInt::from(t);

    let size = normalization_shift_size(&s) as usize;
    let s = s << size;

    assert!(*s.digits.last().unwrap() > (DIGIT_MAX / 2));
}

#[test]
fn short_divmod_test() {
    let dividend = BigInt::from_str("159227301757406318958308608461596464563224530763743").unwrap();
    let divisor: BigDigit = 74495;
    let quotient = BigInt::from_str("2137422669406085226636802583550526405305383324").unwrap();
    let remainder: BigDigit = 42363;

    let res = short_divmod(&dividend, divisor, true);
    assert_eq!(res, (quotient, Some(remainder)));
}

#[test]
fn karatsuba_mul_coherence_test() {
    let mut rng = rand::thread_rng();

    let foo: Vec<BigDigit> = (0..193).map(|_| rng.gen::<BigDigit>()).collect();
    let bar: Vec<BigDigit> = (0..101).map(|_| rng.gen::<BigDigit>()).collect();
    let mut k_output: Vec<BigDigit> = vec![0; foo.len() + bar.len() + 1];
    let mut n_output: Vec<BigDigit> = vec![0; foo.len() + bar.len() + 1];

    n_mul3(&mut n_output[..], &bar, &foo);
    k_mul3(&mut k_output[..], &bar, &foo);

    assert_eq!(n_output, k_output);
}

#[test]
fn shl_equivalency_test() {
    let q = BigInt::from_str("49744649234615701185995702667471447085682723150956").unwrap();

    for t in 0..30usize {
        let z = q.clone();
        let y = q.clone();
        let q: BigDigit = 2;
        assert_eq!(z * q.pow(t as u32), y << t);
    }
}

#[test]
fn dsub_test() {
    let mut foo = [0, 0, 5, 5];
    let res = [BigDigit::max_value(), BigDigit::max_value(), 4, 5];
    assert!(!dsub(&mut foo, 1));
    assert_eq!(foo, res);
}

#[test]
fn binary_parse_test_1() {
    let s = "0b1000100111010001011001011111101001111000";
    let s_int = BigInt::from_str(s).unwrap();
    let q_int = BigInt {
        sign: Sign::Positive,
        digits: vec![0b11010001011001011111101001111000, 0b10001001],
    };
    assert_eq!(s_int, q_int);
}

#[test]
fn negative_parse_test_1() {
    let s = "-23829156530705788460756766611112583774068015949399";
    let s_int = BigInt::from_str(s).unwrap();
    assert!(s_int.is_negative());
}

#[test]
fn rchunks_test_1() {
    let s = vec![0usize, 1, 2, 3, 4, 5, 6, 7, 8, 9];
    let q = s.as_slice();
    let mut s_iter = q.rchunks(3);

    assert_eq!(s_iter.next().unwrap(), &[7usize, 8, 9]);
    assert_eq!(s_iter.next().unwrap(), &[4usize, 5, 6]);
    assert_eq!(s_iter.next().unwrap(), &[1usize, 2, 3]);
    assert_eq!(s_iter.next().unwrap(), &[0usize]);
    assert!(s_iter.next().is_none());
}

#[test]
fn mul_test_vector_test() {
    for line in MUL_TEST_VECTOR {
        let w = words(line);
        let (a, b, c) = (w[0].clone(), w[1].clone(), w[2].clone());
        assert_eq!(a * b, c);
    }
}

#[test]
fn sub_test_vector_test() {
    for line in SUB_TEST_VECTOR {
        let w = words(line);
        let (a, b, c) = (w[0].clone(), w[1].clone(), w[2].clone());
        assert_eq!(a - b, c);
    }
}

#[test]
fn add_test_vector_test() {
    for line in ADD_TEST_VECTOR {
        let w = words(line);
        let (a, b, c) = (w[0].clone(), w[1].clone(), w[2].clone());
        assert_eq!(a + b, c);
    }
}

#[test]
fn div_test_vector_test() {
    for line in DIV_TEST_VECTOR {
        let w = words(line);
        let (x, y, q, r) = (w[0].clone(), w[1].clone(), w[2].clone(), w[3].clone());
        assert_eq!(x.div_mod(&y), (q, r));
    }
}
