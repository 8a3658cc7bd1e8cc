use vstd::arithmetic::div_mod::lemma_mul_mod_noop;
use vstd::arithmetic::power::{lemma_pow1, lemma_pow_adds, pow};
use vstd::prelude::*;
use crate::field::{fmul, is_unit, lemma_view_range, FieldElement, P};
use vstd::set_lib::{lemma_int_range, lemma_map_size, lemma_subset_equality, set_int_range};

verus! {

// The multiplicative group of the field is cyclic with generator 7: the powers of 7 that
// matter are computed on literals, Euclid's lemma for the prime factors of `P - 1` gives that
// 7 has order `P - 1`, and a counting argument gives that every nonzero element is a power
// of 7. Invertibility of every nonzero element and Fermat's little theorem follow.

proof fn lemma_seven_pow_double(a: nat, c: int)
    requires
        pow(7, a) % (P as int) == c,
    ensures
        pow(7, 2 * a) % (P as int) == (c * c) % (P as int),
{
    lemma_pow_adds(7, a, a);
    lemma_mul_mod_noop(pow(7, a), pow(7, a), P as int);
}

proof fn lemma_seven_pow_double_plus(a: nat, c: int)
    requires
        pow(7, a) % (P as int) == c,
    ensures
        pow(7, 2 * a + 1) % (P as int) == (c * c * 7) % (P as int),
{
    let m = P as int;
    lemma_seven_pow_double(a, c);
    lemma_pow_adds(7, 2 * a, 1);
    lemma_pow1(7);
    vstd::arithmetic::div_mod::lemma_mul_mod_noop_left(pow(7, 2 * a), 7, m);
    vstd::arithmetic::div_mod::lemma_mul_mod_noop_left(c * c, 7, m);
}

/// `7^(P - 1)`, by square-and-multiply on literals.
#[verifier::spinoff_prover]
#[verifier::rlimit(100)]
proof fn lemma_seven_pow_full()
    ensures
        pow(7, 18446744069414584320) % (P as int) == 1,
{
    lemma_pow1(7);
    lemma_seven_pow_double_plus(1, 7);
    lemma_seven_pow_double_plus(3, 343);
    lemma_seven_pow_double_plus(7, 823543);
    lemma_seven_pow_double_plus(15, 4747561509943);
    lemma_seven_pow_double_plus(31, 11074261478625843323);
    lemma_seven_pow_double_plus(63, 12148266161370408270);
    lemma_seven_pow_double_plus(127, 7007601668316978083);
    lemma_seven_pow_double_plus(255, 8125271997680889877);
    lemma_seven_pow_double_plus(511, 2624486902016877951);
    lemma_seven_pow_double_plus(1023, 8253119735826302939);
    lemma_seven_pow_double_plus(2047, 3543566522599720475);
    lemma_seven_pow_double_plus(4095, 11981551684735969599);
    lemma_seven_pow_double_plus(8191, 10062120588441922115);
    lemma_seven_pow_double_plus(16383, 10485806445487905393);
    lemma_seven_pow_double_plus(32767, 4139485063330164956);
    lemma_seven_pow_double_plus(65535, 12134830135347446949);
    lemma_seven_pow_double_plus(131071, 4326791766630348883);
    lemma_seven_pow_double_plus(262143, 206761543466863628);
    lemma_seven_pow_double_plus(524287, 10086585273483141421);
    lemma_seven_pow_double_plus(1048575, 1855730417186139594);
    lemma_seven_pow_double_plus(2097151, 7626447102712710903);
    lemma_seven_pow_double_plus(4194303, 7790920094560990216);
    lemma_seven_pow_double_plus(8388607, 5901922255895126089);
    lemma_seven_pow_double_plus(16777215, 8935258787870022506);
    lemma_seven_pow_double_plus(33554431, 13093775858033092690);
    lemma_seven_pow_double_plus(67108863, 11243737384857129666);
    lemma_seven_pow_double_plus(134217727, 2063617152444052883);
    lemma_seven_pow_double_plus(268435455, 13064848991504552222);
    lemma_seven_pow_double_plus(536870911, 16593403251012455084);
    lemma_seven_pow_double_plus(1073741823, 5859133952941131217);
    lemma_seven_pow_double_plus(2147483647, 15659105665374529263);
    lemma_seven_pow_double(4294967295, 1753635133440165772);
    lemma_seven_pow_double(8589934590, 4614640910117430873);
    lemma_seven_pow_double(17179869180, 9123114210336311365);
    lemma_seven_pow_double(34359738360, 16116352524544190054);
    lemma_seven_pow_double(68719476720, 6414415596519834757);
    lemma_seven_pow_double(137438953440, 1213594585890690845);
    lemma_seven_pow_double(274877906880, 17096174751763063430);
    lemma_seven_pow_double(549755813760, 5456943929260765144);
    lemma_seven_pow_double(1099511627520, 9713644485405565297);
    lemma_seven_pow_double(2199023255040, 16905767614792059275);
    lemma_seven_pow_double(4398046510080, 5416168637041100469);
    lemma_seven_pow_double(8796093020160, 17654865857378133588);
    lemma_seven_pow_double(17592186040320, 3511170319078647661);
    lemma_seven_pow_double(35184372080640, 18146160046829613826);
    lemma_seven_pow_double(70368744161280, 9306717745644682924);
    lemma_seven_pow_double(140737488322560, 12380578893860276750);
    lemma_seven_pow_double(281474976645120, 6115771955107415310);
    lemma_seven_pow_double(562949953290240, 17776499369601055404);
    lemma_seven_pow_double(1125899906580480, 16207902636198568418);
    lemma_seven_pow_double(2251799813160960, 1532612707718625687);
    lemma_seven_pow_double(4503599626321920, 17492915097719143606);
    lemma_seven_pow_double(9007199252643840, 455906449640507599);
    lemma_seven_pow_double(18014398505287680, 11353340290879379826);
    lemma_seven_pow_double(36028797010575360, 1803076106186727246);
    lemma_seven_pow_double(72057594021150720, 13797081185216407910);
    lemma_seven_pow_double(144115188042301440, 17870292113338400769);
    lemma_seven_pow_double(288230376084602880, 549755813888);
    lemma_seven_pow_double(576460752169205760, 70368744161280);
    lemma_seven_pow_double(1152921504338411520, 17293822564807737345);
    lemma_seven_pow_double(2305843008676823040, 18446744069397807105);
    lemma_seven_pow_double(4611686017353646080, 281474976710656);
    lemma_seven_pow_double(9223372034707292160, 18446744069414584320);
}

/// The power of 7 for the exponent `(P - 1) / q` named by the suffix, by square-and-multiply
/// on literals.
#[verifier::spinoff_prover]
#[verifier::rlimit(100)]
proof fn lemma_seven_pow_half()
    ensures
        pow(7, 9223372034707292160) % (P as int) == 18446744069414584320,
{
    lemma_pow1(7);
    lemma_seven_pow_double_plus(1, 7);
    lemma_seven_pow_double_plus(3, 343);
    lemma_seven_pow_double_plus(7, 823543);
    lemma_seven_pow_double_plus(15, 4747561509943);
    lemma_seven_pow_double_plus(31, 11074261478625843323);
    lemma_seven_pow_double_plus(63, 12148266161370408270);
    lemma_seven_pow_double_plus(127, 7007601668316978083);
    lemma_seven_pow_double_plus(255, 8125271997680889877);
    lemma_seven_pow_double_plus(511, 2624486902016877951);
    lemma_seven_pow_double_plus(1023, 8253119735826302939);
    lemma_seven_pow_double_plus(2047, 3543566522599720475);
    lemma_seven_pow_double_plus(4095, 11981551684735969599);
    lemma_seven_pow_double_plus(8191, 10062120588441922115);
    lemma_seven_pow_double_plus(16383, 10485806445487905393);
    lemma_seven_pow_double_plus(32767, 4139485063330164956);
    lemma_seven_pow_double_plus(65535, 12134830135347446949);
    lemma_seven_pow_double_plus(131071, 4326791766630348883);
    lemma_seven_pow_double_plus(262143, 206761543466863628);
    lemma_seven_pow_double_plus(524287, 10086585273483141421);
    lemma_seven_pow_double_plus(1048575, 1855730417186139594);
    lemma_seven_pow_double_plus(2097151, 7626447102712710903);
    lemma_seven_pow_double_plus(4194303, 7790920094560990216);
    lemma_seven_pow_double_plus(8388607, 5901922255895126089);
    lemma_seven_pow_double_plus(16777215, 8935258787870022506);
    lemma_seven_pow_double_plus(33554431, 13093775858033092690);
    lemma_seven_pow_double_plus(67108863, 11243737384857129666);
    lemma_seven_pow_double_plus(134217727, 2063617152444052883);
    lemma_seven_pow_double_plus(268435455, 13064848991504552222);
    lemma_seven_pow_double_plus(536870911, 16593403251012455084);
    lemma_seven_pow_double_plus(1073741823, 5859133952941131217);
    lemma_seven_pow_double_plus(2147483647, 15659105665374529263);
    lemma_seven_pow_double(4294967295, 1753635133440165772);
    lemma_seven_pow_double(8589934590, 4614640910117430873);
    lemma_seven_pow_double(17179869180, 9123114210336311365);
    lemma_seven_pow_double(34359738360, 16116352524544190054);
    lemma_seven_pow_double(68719476720, 6414415596519834757);
    lemma_seven_pow_double(137438953440, 1213594585890690845);
    lemma_seven_pow_double(274877906880, 17096174751763063430);
    lemma_seven_pow_double(549755813760, 5456943929260765144);
    lemma_seven_pow_double(1099511627520, 9713644485405565297);
    lemma_seven_pow_double(2199023255040, 16905767614792059275);
    lemma_seven_pow_double(4398046510080, 5416168637041100469);
    lemma_seven_pow_double(8796093020160, 17654865857378133588);
    lemma_seven_pow_double(17592186040320, 3511170319078647661);
    lemma_seven_pow_double(35184372080640, 18146160046829613826);
    lemma_seven_pow_double(70368744161280, 9306717745644682924);
    lemma_seven_pow_double(140737488322560, 12380578893860276750);
    lemma_seven_pow_double(281474976645120, 6115771955107415310);
    lemma_seven_pow_double(562949953290240, 17776499369601055404);
    lemma_seven_pow_double(1125899906580480, 16207902636198568418);
    lemma_seven_pow_double(2251799813160960, 1532612707718625687);
    lemma_seven_pow_double(4503599626321920, 17492915097719143606);
    lemma_seven_pow_double(9007199252643840, 455906449640507599);
    lemma_seven_pow_double(18014398505287680, 11353340290879379826);
    lemma_seven_pow_double(36028797010575360, 1803076106186727246);
    lemma_seven_pow_double(72057594021150720, 13797081185216407910);
    lemma_seven_pow_double(144115188042301440, 17870292113338400769);
    lemma_seven_pow_double(288230376084602880, 549755813888);
    lemma_seven_pow_double(576460752169205760, 70368744161280);
    lemma_seven_pow_double(1152921504338411520, 17293822564807737345);
    lemma_seven_pow_double(2305843008676823040, 18446744069397807105);
    lemma_seven_pow_double(4611686017353646080, 281474976710656);
}

/// The power of 7 for the exponent `(P - 1) / q` named by the suffix, by square-and-multiply
/// on literals.
#[verifier::spinoff_prover]
#[verifier::rlimit(100)]
proof fn lemma_seven_pow_third()
    ensures
        pow(7, 6148914689804861440) % (P as int) == 18446744065119617025,
{
    lemma_pow1(7);
    lemma_seven_pow_double(1, 7);
    lemma_seven_pow_double_plus(2, 49);
    lemma_seven_pow_double(5, 16807);
    lemma_seven_pow_double_plus(10, 282475249);
    lemma_seven_pow_double(21, 558545864083284007);
    lemma_seven_pow_double_plus(42, 8022122801911579307);
    lemma_seven_pow_double(85, 12800950874161730379);
    lemma_seven_pow_double_plus(170, 14271156885488964304);
    lemma_seven_pow_double(341, 9587782661304029968);
    lemma_seven_pow_double_plus(682, 10276868313419320864);
    lemma_seven_pow_double(1365, 15061306595140985043);
    lemma_seven_pow_double_plus(2730, 10087193495066827832);
    lemma_seven_pow_double(5461, 12984983231508602376);
    lemma_seven_pow_double_plus(10922, 1362657970957379548);
    lemma_seven_pow_double(21845, 11834541208736377360);
    lemma_seven_pow_double_plus(43690, 15486580570079272365);
    lemma_seven_pow_double(87381, 2195267778297645936);
    lemma_seven_pow_double_plus(174762, 12545318111885672966);
    lemma_seven_pow_double(349525, 3239519442280833256);
    lemma_seven_pow_double_plus(699050, 11109814195885452171);
    lemma_seven_pow_double(1398101, 4804669246163822745);
    lemma_seven_pow_double_plus(2796202, 438903447396483212);
    lemma_seven_pow_double(5592405, 5017700972839514350);
    lemma_seven_pow_double_plus(11184810, 7499557959359525151);
    lemma_seven_pow_double(22369621, 8616883547669016587);
    lemma_seven_pow_double_plus(44739242, 458110968676413213);
    lemma_seven_pow_double(89478485, 11751894947584113056);
    lemma_seven_pow_double_plus(178956970, 525895266577965633);
    lemma_seven_pow_double(357913941, 3177182820897284811);
    lemma_seven_pow_double_plus(715827882, 7964267603545906836);
    lemma_seven_pow_double(1431655765, 14159254819154955796);
    lemma_seven_pow_double(2863311530, 998724450546658713);
    lemma_seven_pow_double(5726623060, 1811047956385014016);
    lemma_seven_pow_double(11453246120, 2957134717709447844);
    lemma_seven_pow_double(22906492240, 8418656202527058970);
    lemma_seven_pow_double(45812984480, 9344165103595421707);
    lemma_seven_pow_double(91625968960, 12398472707942400981);
    lemma_seven_pow_double(183251937920, 10977358340789161543);
    lemma_seven_pow_double(366503875840, 14519574879452399500);
    lemma_seven_pow_double(733007751680, 3056692624244734627);
    lemma_seven_pow_double(1466015503360, 17973258314804772181);
    lemma_seven_pow_double(2932031006720, 15462695660743809749);
    lemma_seven_pow_double(5864062013440, 18046908317468628738);
    lemma_seven_pow_double(11728124026880, 9144605907772536802);
    lemma_seven_pow_double(23456248053760, 8796482344486648840);
    lemma_seven_pow_double(46912496107520, 3596945015050375886);
    lemma_seven_pow_double(93824992215040, 4201997653601256896);
    lemma_seven_pow_double(187649984430080, 6905479200839918232);
    lemma_seven_pow_double(375299968860160, 1725491680989254570);
    lemma_seven_pow_double(750599937720320, 12370230134295797906);
    lemma_seven_pow_double(1501199875440640, 3734230229149707555);
    lemma_seven_pow_double(3002399750881280, 16496341184493220914);
    lemma_seven_pow_double(6004799501762560, 15331777707844533717);
    lemma_seven_pow_double(12009599003525120, 11895029263313522992);
    lemma_seven_pow_double(24019198007050240, 11373273867503537004);
    lemma_seven_pow_double(48038396014100480, 13835058050987180033);
    lemma_seven_pow_double(96076792028200960, 35184372080640);
    lemma_seven_pow_double(192153584056401920, 18158513693262872577);
    lemma_seven_pow_double(384307168112803840, 18446744069413535745);
    lemma_seven_pow_double(768614336225607680, 1099511627776);
    lemma_seven_pow_double(1537228672451215360, 281474976645120);
    lemma_seven_pow_double(3074457344902430720, 18446744065119617026);
}

/// The power of 7 for the exponent `(P - 1) / q` named by the suffix, by square-and-multiply
/// on literals.
#[verifier::spinoff_prover]
#[verifier::rlimit(100)]
proof fn lemma_seven_pow_fifth()
    ensures
        pow(7, 3689348813882916864) % (P as int) == 1373043270956696022,
{
    lemma_pow1(7);
    lemma_seven_pow_double_plus(1, 7);
    lemma_seven_pow_double(3, 343);
    lemma_seven_pow_double(6, 117649);
    lemma_seven_pow_double_plus(12, 13841287201);
    lemma_seven_pow_double_plus(25, 12903046666114829695);
    lemma_seven_pow_double(51, 11221315429317299127);
    lemma_seven_pow_double(102, 3745031562215636174);
    lemma_seven_pow_double_plus(204, 14721374862152863140);
    lemma_seven_pow_double_plus(409, 4722125031313448055);
    lemma_seven_pow_double(819, 13185163832710852318);
    lemma_seven_pow_double(1638, 2814030611640221029);
    lemma_seven_pow_double_plus(3276, 15305242945550478579);
    lemma_seven_pow_double_plus(6553, 4055957887005023019);
    lemma_seven_pow_double(13107, 15895862450598400473);
    lemma_seven_pow_double(26214, 15907429390595540903);
    lemma_seven_pow_double_plus(52428, 9571849187322067488);
    lemma_seven_pow_double_plus(104857, 13342646475897591308);
    lemma_seven_pow_double(209715, 11968414678554910634);
    lemma_seven_pow_double(419430, 9815939365277946145);
    lemma_seven_pow_double_plus(838860, 15620185229717233314);
    lemma_seven_pow_double_plus(1677721, 531677932165793774);
    lemma_seven_pow_double(3355443, 5959305040220178296);
    lemma_seven_pow_double(6710886, 6422988881738978288);
    lemma_seven_pow_double_plus(13421772, 6417963550187649822);
    lemma_seven_pow_double_plus(26843545, 7536491442022418664);
    lemma_seven_pow_double(53687091, 6156600053163182347);
    lemma_seven_pow_double(107374182, 774671493430776042);
    lemma_seven_pow_double_plus(214748364, 5396215078887381364);
    lemma_seven_pow_double_plus(429496729, 15314337471363908198);
    lemma_seven_pow_double(858993459, 3662027161463226824);
    lemma_seven_pow_double(1717986918, 11820361339200135398);
    lemma_seven_pow_double(3435973836, 10563623981652513853);
    lemma_seven_pow_double(6871947672, 11556889392494533434);
    lemma_seven_pow_double(13743895344, 5123117391711505057);
    lemma_seven_pow_double(27487790688, 18163573378392062736);
    lemma_seven_pow_double(54975581376, 17372647198866510400);
    lemma_seven_pow_double(109951162752, 1220884775256242639);
    lemma_seven_pow_double(219902325504, 1436240010618898855);
    lemma_seven_pow_double(439804651008, 968157462317130011);
    lemma_seven_pow_double(879609302016, 993397133647309316);
    lemma_seven_pow_double(1759218604032, 14359758886168776598);
    lemma_seven_pow_double(3518437208064, 11469785989846425790);
    lemma_seven_pow_double(7036874416128, 7202858824453247222);
    lemma_seven_pow_double(14073748832256, 8980223327998268287);
    lemma_seven_pow_double(28147497664512, 2898061628613144896);
    lemma_seven_pow_double(56294995329024, 5148563552100513047);
    lemma_seven_pow_double(112589990658048, 10405746850183322052);
    lemma_seven_pow_double(225179981316096, 8376609452955824527);
    lemma_seven_pow_double(450359962632192, 17819501121686609562);
    lemma_seven_pow_double(900719925264384, 12701195747762323519);
    lemma_seven_pow_double(1801439850528768, 16093963071722629223);
    lemma_seven_pow_double(3602879701057536, 18098504255140688579);
    lemma_seven_pow_double(7205759402115072, 3705545293506004500);
    lemma_seven_pow_double(14411518804230144, 12143967077249500439);
    lemma_seven_pow_double(28823037608460288, 8898934198923663040);
    lemma_seven_pow_double(57646075216920576, 14017153681711143730);
    lemma_seven_pow_double(115292150433841152, 13369903252519103517);
    lemma_seven_pow_double(230584300867682304, 2271703332821311793);
    lemma_seven_pow_double(461168601735364608, 14026992134716723275);
    lemma_seven_pow_double(922337203470729216, 2281812832982421726);
    lemma_seven_pow_double(1844674406941458432, 2625919085333925275);
}

/// The power of 7 for the exponent `(P - 1) / q` named by the suffix, by square-and-multiply
/// on literals.
#[verifier::spinoff_prover]
#[verifier::rlimit(100)]
proof fn lemma_seven_pow_seventeenth()
    ensures
        pow(7, 1085102592318504960) % (P as int) == 16301593560560007290,
{
    lemma_pow1(7);
    lemma_seven_pow_double_plus(1, 7);
    lemma_seven_pow_double_plus(3, 343);
    lemma_seven_pow_double_plus(7, 823543);
    lemma_seven_pow_double(15, 4747561509943);
    lemma_seven_pow_double(30, 1582037354089406189);
    lemma_seven_pow_double(60, 6704211459967285318);
    lemma_seven_pow_double(120, 12536486945555764682);
    lemma_seven_pow_double_plus(240, 8329639379454877396);
    lemma_seven_pow_double_plus(481, 12103073565623681441);
    lemma_seven_pow_double_plus(963, 14844191010664918863);
    lemma_seven_pow_double_plus(1927, 13122058918416823729);
    lemma_seven_pow_double(3855, 18391788000542569559);
    lemma_seven_pow_double(7710, 5815952681263863745);
    lemma_seven_pow_double(15420, 15534263258852221519);
    lemma_seven_pow_double(30840, 9621442331152125603);
    lemma_seven_pow_double_plus(61680, 13847347385863248794);
    lemma_seven_pow_double_plus(123361, 9759263770000967494);
    lemma_seven_pow_double_plus(246723, 8617703953199623826);
    lemma_seven_pow_double_plus(493447, 18341993165004160224);
    lemma_seven_pow_double(986895, 16325541388042428380);
    lemma_seven_pow_double(1973790, 87681681590930466);
    lemma_seven_pow_double(3947580, 1247600097974775228);
    lemma_seven_pow_double(7895160, 263672500424845310);
    lemma_seven_pow_double_plus(15790320, 14075661776324224620);
    lemma_seven_pow_double_plus(31580641, 7684278052474903173);
    lemma_seven_pow_double_plus(63161283, 7708761456973364157);
    lemma_seven_pow_double_plus(126322567, 69940930452546681);
    lemma_seven_pow_double(252645135, 16357725396938484569);
    lemma_seven_pow_double(505290270, 9635924811972810304);
    lemma_seven_pow_double(1010580540, 17792655913659759447);
    lemma_seven_pow_double(2021161080, 757864979510442991);
    lemma_seven_pow_double(4042322160, 5359388630104522475);
    lemma_seven_pow_double(8084644320, 16844089689671372755);
    lemma_seven_pow_double(16169288640, 3416859319420511225);
    lemma_seven_pow_double(32338577280, 13225002848613916298);
    lemma_seven_pow_double(64677154560, 3046446182183887513);
    lemma_seven_pow_double(129354309120, 8471950025145571556);
    lemma_seven_pow_double(258708618240, 14240312891968862088);
    lemma_seven_pow_double(517417236480, 14284159170854690980);
    lemma_seven_pow_double(1034834472960, 2140736107784648890);
    lemma_seven_pow_double(2069668945920, 720221585272617730);
    lemma_seven_pow_double(4139337891840, 14933742682021830494);
    lemma_seven_pow_double(8278675783680, 16866753830962059859);
    lemma_seven_pow_double(16557351567360, 4185523320037657098);
    lemma_seven_pow_double(33114703134720, 17086191566025186696);
    lemma_seven_pow_double(66229406269440, 1098680059505421076);
    lemma_seven_pow_double(132458812538880, 16940429312545755789);
    lemma_seven_pow_double(264917625077760, 16945016486212160087);
    lemma_seven_pow_double(529835250155520, 18171560771947831624);
    lemma_seven_pow_double(1059670500311040, 14884189242943664099);
    lemma_seven_pow_double(2119341000622080, 7182983899389742773);
    lemma_seven_pow_double(4238682001244160, 7794706010606133772);
    lemma_seven_pow_double(8477364002488320, 5944394147430185930);
    lemma_seven_pow_double(16954728004976640, 11638363544692747458);
    lemma_seven_pow_double(33909456009953280, 8942909788274506390);
    lemma_seven_pow_double(67818912019906560, 10254463118692560346);
    lemma_seven_pow_double(135637824039813120, 6509392022269312871);
    lemma_seven_pow_double(271275648079626240, 3060481852759670200);
    lemma_seven_pow_double(542551296159252480, 9492362781570530732);
}

/// The power of 7 for the exponent `(P - 1) / q` named by the suffix, by square-and-multiply
/// on literals.
#[verifier::spinoff_prover]
#[verifier::rlimit(100)]
proof fn lemma_seven_pow_two_fifty_seventh()
    ensures
        pow(7, 71777214277877760) % (P as int) == 995085315851368103,
{
    lemma_pow1(7);
    lemma_seven_pow_double_plus(1, 7);
    lemma_seven_pow_double_plus(3, 343);
    lemma_seven_pow_double_plus(7, 823543);
    lemma_seven_pow_double_plus(15, 4747561509943);
    lemma_seven_pow_double_plus(31, 11074261478625843323);
    lemma_seven_pow_double_plus(63, 12148266161370408270);
    lemma_seven_pow_double_plus(127, 7007601668316978083);
    lemma_seven_pow_double(255, 8125271997680889877);
    lemma_seven_pow_double(510, 10915923311382173605);
    lemma_seven_pow_double(1020, 8682737361258234340);
    lemma_seven_pow_double(2040, 13168992710278412212);
    lemma_seven_pow_double(4080, 3615243740316660512);
    lemma_seven_pow_double(8160, 9701552052102210316);
    lemma_seven_pow_double(16320, 12082995573853045936);
    lemma_seven_pow_double(32640, 2592469405483382171);
    lemma_seven_pow_double_plus(65280, 8929377406043347353);
    lemma_seven_pow_double_plus(130561, 13230650959860397101);
    lemma_seven_pow_double_plus(261123, 4567519111026823348);
    lemma_seven_pow_double_plus(522247, 14039453651739780561);
    lemma_seven_pow_double_plus(1044495, 9849600182067894019);
    lemma_seven_pow_double_plus(2088991, 294188574756026472);
    lemma_seven_pow_double_plus(4177983, 13396756356721479597);
    lemma_seven_pow_double_plus(8355967, 227377812062300433);
    lemma_seven_pow_double(16711935, 3277408507376532532);
    lemma_seven_pow_double(33423870, 10187910960120918295);
    lemma_seven_pow_double(66847740, 1234511965033452377);
    lemma_seven_pow_double(133695480, 15363200638052948867);
    lemma_seven_pow_double(267390960, 1236027695563809108);
    lemma_seven_pow_double(534781920, 12002353154524589429);
    lemma_seven_pow_double(1069563840, 14027517171084490203);
    lemma_seven_pow_double(2139127680, 2711851439569513933);
    lemma_seven_pow_double(4278255360, 80652374890911913);
    lemma_seven_pow_double(8556510720, 5283607704788425345);
    lemma_seven_pow_double(17113021440, 15514810852250684057);
    lemma_seven_pow_double(34226042880, 13397417830393806946);
    lemma_seven_pow_double(68452085760, 16359729400225625612);
    lemma_seven_pow_double(136904171520, 8019533974815212444);
    lemma_seven_pow_double(273808343040, 9655755660440986855);
    lemma_seven_pow_double(547616686080, 3604536941271117731);
    lemma_seven_pow_double(1095233372160, 17307879323250707139);
    lemma_seven_pow_double(2190466744320, 16869139653157226251);
    lemma_seven_pow_double(4380933488640, 6953284473670099805);
    lemma_seven_pow_double(8761866977280, 18224581395058808609);
    lemma_seven_pow_double(17523733954560, 12317229062629230801);
    lemma_seven_pow_double(35047467909120, 8521080430804482018);
    lemma_seven_pow_double(70094935818240, 1553296775282575040);
    lemma_seven_pow_double(140189871636480, 13200482976866298980);
    lemma_seven_pow_double(280379743272960, 14925891398157497804);
    lemma_seven_pow_double(560759486545920, 15678887058344505597);
    lemma_seven_pow_double(1121518973091840, 14658776698600081839);
    lemma_seven_pow_double(2243037946183680, 16565152875265738852);
    lemma_seven_pow_double(4486075892367360, 5984943436188102888);
    lemma_seven_pow_double(8972151784734720, 14921717924877542342);
    lemma_seven_pow_double(17944303569469440, 1654982787239893223);
    lemma_seven_pow_double(35888607138938880, 18353445258623017512);
}

/// The power of 7 for the exponent `(P - 1) / q` named by the suffix, by square-and-multiply
/// on literals.
#[verifier::spinoff_prover]
#[verifier::rlimit(100)]
proof fn lemma_seven_pow_sixty_five_thousand_five_hundred_thirty_seventh()
    ensures
        pow(7, 281470681743360) % (P as int) == 8478886009461009681,
{
    lemma_pow1(7);
    lemma_seven_pow_double_plus(1, 7);
    lemma_seven_pow_double_plus(3, 343);
    lemma_seven_pow_double_plus(7, 823543);
    lemma_seven_pow_double_plus(15, 4747561509943);
    lemma_seven_pow_double_plus(31, 11074261478625843323);
    lemma_seven_pow_double_plus(63, 12148266161370408270);
    lemma_seven_pow_double_plus(127, 7007601668316978083);
    lemma_seven_pow_double_plus(255, 8125271997680889877);
    lemma_seven_pow_double_plus(511, 2624486902016877951);
    lemma_seven_pow_double_plus(1023, 8253119735826302939);
    lemma_seven_pow_double_plus(2047, 3543566522599720475);
    lemma_seven_pow_double_plus(4095, 11981551684735969599);
    lemma_seven_pow_double_plus(8191, 10062120588441922115);
    lemma_seven_pow_double_plus(16383, 10485806445487905393);
    lemma_seven_pow_double_plus(32767, 4139485063330164956);
    lemma_seven_pow_double(65535, 12134830135347446949);
    lemma_seven_pow_double(131070, 618113109518621269);
    lemma_seven_pow_double(262140, 10057574059836717585);
    lemma_seven_pow_double(524280, 11436575600859740313);
    lemma_seven_pow_double(1048560, 2460531272136303351);
    lemma_seven_pow_double(2097120, 5287351674330089703);
    lemma_seven_pow_double(4194240, 2729558173611838869);
    lemma_seven_pow_double(8388480, 5809869834850305452);
    lemma_seven_pow_double(16776960, 4380238239217790048);
    lemma_seven_pow_double(33553920, 10313688370767105378);
    lemma_seven_pow_double(67107840, 1116132233887293652);
    lemma_seven_pow_double(134215680, 8201916556687100419);
    lemma_seven_pow_double(268431360, 9569002298025400893);
    lemma_seven_pow_double(536862720, 3860342023949954178);
    lemma_seven_pow_double(1073725440, 2518827640559301834);
    lemma_seven_pow_double(2147450880, 4408381949760333744);
    lemma_seven_pow_double(4294901760, 5214785644524920463);
    lemma_seven_pow_double(8589803520, 16359673064222316581);
    lemma_seven_pow_double(17179607040, 7241809583754189836);
    lemma_seven_pow_double(34359214080, 12639803007403283714);
    lemma_seven_pow_double(68718428160, 12324653451830581392);
    lemma_seven_pow_double(137436856320, 3248773168955372845);
    lemma_seven_pow_double(274873712640, 11622038198969340988);
    lemma_seven_pow_double(549747425280, 13512512774593501075);
    lemma_seven_pow_double(1099494850560, 7628844061018354094);
    lemma_seven_pow_double(2198989701120, 10832619856158324041);
    lemma_seven_pow_double(4397979402240, 6522121551337605094);
    lemma_seven_pow_double(8795958804480, 4924686556790045269);
    lemma_seven_pow_double(17591917608960, 8233486007872169718);
    lemma_seven_pow_double(35183835217920, 6861851865518519982);
    lemma_seven_pow_double(70367670435840, 16452032933035937120);
    lemma_seven_pow_double(140735340871680, 7318164361609642178);
}

/// Trial division: 5 has no divisor from 2 up to its square root.
proof fn lemma_no_small_divisor_5()
    ensures
        forall|d: int| 2 <= d <= 2 ==> #[trigger] (5int % d) != 0,
{
    assert forall|d: int| 2 <= d <= 2 implies #[trigger] (5int % d) != 0 by {
        if d == 2 {
            assert(5int % 2 != 0);
        }
    }
}

/// Trial division: 17 has no divisor from 2 up to its square root.
proof fn lemma_no_small_divisor_17()
    ensures
        forall|d: int| 2 <= d <= 4 ==> #[trigger] (17int % d) != 0,
{
    assert forall|d: int| 2 <= d <= 4 implies #[trigger] (17int % d) != 0 by {
        if d == 2 {
            assert(17int % 2 != 0);
        } else if d == 3 {
            assert(17int % 3 != 0);
        } else if d == 4 {
            assert(17int % 4 != 0);
        }
    }
}

/// Trial division: 257 has no divisor from 2 up to its square root.
proof fn lemma_no_small_divisor_257()
    ensures
        forall|d: int| 2 <= d <= 16 ==> #[trigger] (257int % d) != 0,
{
    assert forall|d: int| 2 <= d <= 16 implies #[trigger] (257int % d) != 0 by {
        if d == 2 {
            assert(257int % 2 != 0);
        } else if d == 3 {
            assert(257int % 3 != 0);
        } else if d == 4 {
            assert(257int % 4 != 0);
        } else if d == 5 {
            assert(257int % 5 != 0);
        } else if d == 6 {
            assert(257int % 6 != 0);
        } else if d == 7 {
            assert(257int % 7 != 0);
        } else if d == 8 {
            assert(257int % 8 != 0);
        } else if d == 9 {
            assert(257int % 9 != 0);
        } else if d == 10 {
            assert(257int % 10 != 0);
        } else if d == 11 {
            assert(257int % 11 != 0);
        } else if d == 12 {
            assert(257int % 12 != 0);
        } else if d == 13 {
            assert(257int % 13 != 0);
        } else if d == 14 {
            assert(257int % 14 != 0);
        } else if d == 15 {
            assert(257int % 15 != 0);
        } else if d == 16 {
            assert(257int % 16 != 0);
        }
    }
}

/// Trial division: 65537 has no divisor from 2 up to its square root.
proof fn lemma_no_small_divisor_65537()
    ensures
        forall|d: int| 2 <= d <= 256 ==> #[trigger] (65537int % d) != 0,
{
    assert forall|d: int| 2 <= d <= 256 implies #[trigger] (65537int % d) != 0 by {
        if d == 2 {
            assert(65537int % 2 != 0);
        } else if d == 3 {
            assert(65537int % 3 != 0);
        } else if d == 4 {
            assert(65537int % 4 != 0);
        } else if d == 5 {
            assert(65537int % 5 != 0);
        } else if d == 6 {
            assert(65537int % 6 != 0);
        } else if d == 7 {
            assert(65537int % 7 != 0);
        } else if d == 8 {
            assert(65537int % 8 != 0);
        } else if d == 9 {
            assert(65537int % 9 != 0);
        } else if d == 10 {
            assert(65537int % 10 != 0);
        } else if d == 11 {
            assert(65537int % 11 != 0);
        } else if d == 12 {
            assert(65537int % 12 != 0);
        } else if d == 13 {
            assert(65537int % 13 != 0);
        } else if d == 14 {
            assert(65537int % 14 != 0);
        } else if d == 15 {
            assert(65537int % 15 != 0);
        } else if d == 16 {
            assert(65537int % 16 != 0);
        } else if d == 17 {
            assert(65537int % 17 != 0);
        } else if d == 18 {
            assert(65537int % 18 != 0);
        } else if d == 19 {
            assert(65537int % 19 != 0);
        } else if d == 20 {
            assert(65537int % 20 != 0);
        } else if d == 21 {
            assert(65537int % 21 != 0);
        } else if d == 22 {
            assert(65537int % 22 != 0);
        } else if d == 23 {
            assert(65537int % 23 != 0);
        } else if d == 24 {
            assert(65537int % 24 != 0);
        } else if d == 25 {
            assert(65537int % 25 != 0);
        } else if d == 26 {
            assert(65537int % 26 != 0);
        } else if d == 27 {
            assert(65537int % 27 != 0);
        } else if d == 28 {
            assert(65537int % 28 != 0);
        } else if d == 29 {
            assert(65537int % 29 != 0);
        } else if d == 30 {
            assert(65537int % 30 != 0);
        } else if d == 31 {
            assert(65537int % 31 != 0);
        } else if d == 32 {
            assert(65537int % 32 != 0);
        } else if d == 33 {
            assert(65537int % 33 != 0);
        } else if d == 34 {
            assert(65537int % 34 != 0);
        } else if d == 35 {
            assert(65537int % 35 != 0);
        } else if d == 36 {
            assert(65537int % 36 != 0);
        } else if d == 37 {
            assert(65537int % 37 != 0);
        } else if d == 38 {
            assert(65537int % 38 != 0);
        } else if d == 39 {
            assert(65537int % 39 != 0);
        } else if d == 40 {
            assert(65537int % 40 != 0);
        } else if d == 41 {
            assert(65537int % 41 != 0);
        } else if d == 42 {
            assert(65537int % 42 != 0);
        } else if d == 43 {
            assert(65537int % 43 != 0);
        } else if d == 44 {
            assert(65537int % 44 != 0);
        } else if d == 45 {
            assert(65537int % 45 != 0);
        } else if d == 46 {
            assert(65537int % 46 != 0);
        } else if d == 47 {
            assert(65537int % 47 != 0);
        } else if d == 48 {
            assert(65537int % 48 != 0);
        } else if d == 49 {
            assert(65537int % 49 != 0);
        } else if d == 50 {
            assert(65537int % 50 != 0);
        } else if d == 51 {
            assert(65537int % 51 != 0);
        } else if d == 52 {
            assert(65537int % 52 != 0);
        } else if d == 53 {
            assert(65537int % 53 != 0);
        } else if d == 54 {
            assert(65537int % 54 != 0);
        } else if d == 55 {
            assert(65537int % 55 != 0);
        } else if d == 56 {
            assert(65537int % 56 != 0);
        } else if d == 57 {
            assert(65537int % 57 != 0);
        } else if d == 58 {
            assert(65537int % 58 != 0);
        } else if d == 59 {
            assert(65537int % 59 != 0);
        } else if d == 60 {
            assert(65537int % 60 != 0);
        } else if d == 61 {
            assert(65537int % 61 != 0);
        } else if d == 62 {
            assert(65537int % 62 != 0);
        } else if d == 63 {
            assert(65537int % 63 != 0);
        } else if d == 64 {
            assert(65537int % 64 != 0);
        } else if d == 65 {
            assert(65537int % 65 != 0);
        } else if d == 66 {
            assert(65537int % 66 != 0);
        } else if d == 67 {
            assert(65537int % 67 != 0);
        } else if d == 68 {
            assert(65537int % 68 != 0);
        } else if d == 69 {
            assert(65537int % 69 != 0);
        } else if d == 70 {
            assert(65537int % 70 != 0);
        } else if d == 71 {
            assert(65537int % 71 != 0);
        } else if d == 72 {
            assert(65537int % 72 != 0);
        } else if d == 73 {
            assert(65537int % 73 != 0);
        } else if d == 74 {
            assert(65537int % 74 != 0);
        } else if d == 75 {
            assert(65537int % 75 != 0);
        } else if d == 76 {
            assert(65537int % 76 != 0);
        } else if d == 77 {
            assert(65537int % 77 != 0);
        } else if d == 78 {
            assert(65537int % 78 != 0);
        } else if d == 79 {
            assert(65537int % 79 != 0);
        } else if d == 80 {
            assert(65537int % 80 != 0);
        } else if d == 81 {
            assert(65537int % 81 != 0);
        } else if d == 82 {
            assert(65537int % 82 != 0);
        } else if d == 83 {
            assert(65537int % 83 != 0);
        } else if d == 84 {
            assert(65537int % 84 != 0);
        } else if d == 85 {
            assert(65537int % 85 != 0);
        } else if d == 86 {
            assert(65537int % 86 != 0);
        } else if d == 87 {
            assert(65537int % 87 != 0);
        } else if d == 88 {
            assert(65537int % 88 != 0);
        } else if d == 89 {
            assert(65537int % 89 != 0);
        } else if d == 90 {
            assert(65537int % 90 != 0);
        } else if d == 91 {
            assert(65537int % 91 != 0);
        } else if d == 92 {
            assert(65537int % 92 != 0);
        } else if d == 93 {
            assert(65537int % 93 != 0);
        } else if d == 94 {
            assert(65537int % 94 != 0);
        } else if d == 95 {
            assert(65537int % 95 != 0);
        } else if d == 96 {
            assert(65537int % 96 != 0);
        } else if d == 97 {
            assert(65537int % 97 != 0);
        } else if d == 98 {
            assert(65537int % 98 != 0);
        } else if d == 99 {
            assert(65537int % 99 != 0);
        } else if d == 100 {
            assert(65537int % 100 != 0);
        } else if d == 101 {
            assert(65537int % 101 != 0);
        } else if d == 102 {
            assert(65537int % 102 != 0);
        } else if d == 103 {
            assert(65537int % 103 != 0);
        } else if d == 104 {
            assert(65537int % 104 != 0);
        } else if d == 105 {
            assert(65537int % 105 != 0);
        } else if d == 106 {
            assert(65537int % 106 != 0);
        } else if d == 107 {
            assert(65537int % 107 != 0);
        } else if d == 108 {
            assert(65537int % 108 != 0);
        } else if d == 109 {
            assert(65537int % 109 != 0);
        } else if d == 110 {
            assert(65537int % 110 != 0);
        } else if d == 111 {
            assert(65537int % 111 != 0);
        } else if d == 112 {
            assert(65537int % 112 != 0);
        } else if d == 113 {
            assert(65537int % 113 != 0);
        } else if d == 114 {
            assert(65537int % 114 != 0);
        } else if d == 115 {
            assert(65537int % 115 != 0);
        } else if d == 116 {
            assert(65537int % 116 != 0);
        } else if d == 117 {
            assert(65537int % 117 != 0);
        } else if d == 118 {
            assert(65537int % 118 != 0);
        } else if d == 119 {
            assert(65537int % 119 != 0);
        } else if d == 120 {
            assert(65537int % 120 != 0);
        } else if d == 121 {
            assert(65537int % 121 != 0);
        } else if d == 122 {
            assert(65537int % 122 != 0);
        } else if d == 123 {
            assert(65537int % 123 != 0);
        } else if d == 124 {
            assert(65537int % 124 != 0);
        } else if d == 125 {
            assert(65537int % 125 != 0);
        } else if d == 126 {
            assert(65537int % 126 != 0);
        } else if d == 127 {
            assert(65537int % 127 != 0);
        } else if d == 128 {
            assert(65537int % 128 != 0);
        } else if d == 129 {
            assert(65537int % 129 != 0);
        } else if d == 130 {
            assert(65537int % 130 != 0);
        } else if d == 131 {
            assert(65537int % 131 != 0);
        } else if d == 132 {
            assert(65537int % 132 != 0);
        } else if d == 133 {
            assert(65537int % 133 != 0);
        } else if d == 134 {
            assert(65537int % 134 != 0);
        } else if d == 135 {
            assert(65537int % 135 != 0);
        } else if d == 136 {
            assert(65537int % 136 != 0);
        } else if d == 137 {
            assert(65537int % 137 != 0);
        } else if d == 138 {
            assert(65537int % 138 != 0);
        } else if d == 139 {
            assert(65537int % 139 != 0);
        } else if d == 140 {
            assert(65537int % 140 != 0);
        } else if d == 141 {
            assert(65537int % 141 != 0);
        } else if d == 142 {
            assert(65537int % 142 != 0);
        } else if d == 143 {
            assert(65537int % 143 != 0);
        } else if d == 144 {
            assert(65537int % 144 != 0);
        } else if d == 145 {
            assert(65537int % 145 != 0);
        } else if d == 146 {
            assert(65537int % 146 != 0);
        } else if d == 147 {
            assert(65537int % 147 != 0);
        } else if d == 148 {
            assert(65537int % 148 != 0);
        } else if d == 149 {
            assert(65537int % 149 != 0);
        } else if d == 150 {
            assert(65537int % 150 != 0);
        } else if d == 151 {
            assert(65537int % 151 != 0);
        } else if d == 152 {
            assert(65537int % 152 != 0);
        } else if d == 153 {
            assert(65537int % 153 != 0);
        } else if d == 154 {
            assert(65537int % 154 != 0);
        } else if d == 155 {
            assert(65537int % 155 != 0);
        } else if d == 156 {
            assert(65537int % 156 != 0);
        } else if d == 157 {
            assert(65537int % 157 != 0);
        } else if d == 158 {
            assert(65537int % 158 != 0);
        } else if d == 159 {
            assert(65537int % 159 != 0);
        } else if d == 160 {
            assert(65537int % 160 != 0);
        } else if d == 161 {
            assert(65537int % 161 != 0);
        } else if d == 162 {
            assert(65537int % 162 != 0);
        } else if d == 163 {
            assert(65537int % 163 != 0);
        } else if d == 164 {
            assert(65537int % 164 != 0);
        } else if d == 165 {
            assert(65537int % 165 != 0);
        } else if d == 166 {
            assert(65537int % 166 != 0);
        } else if d == 167 {
            assert(65537int % 167 != 0);
        } else if d == 168 {
            assert(65537int % 168 != 0);
        } else if d == 169 {
            assert(65537int % 169 != 0);
        } else if d == 170 {
            assert(65537int % 170 != 0);
        } else if d == 171 {
            assert(65537int % 171 != 0);
        } else if d == 172 {
            assert(65537int % 172 != 0);
        } else if d == 173 {
            assert(65537int % 173 != 0);
        } else if d == 174 {
            assert(65537int % 174 != 0);
        } else if d == 175 {
            assert(65537int % 175 != 0);
        } else if d == 176 {
            assert(65537int % 176 != 0);
        } else if d == 177 {
            assert(65537int % 177 != 0);
        } else if d == 178 {
            assert(65537int % 178 != 0);
        } else if d == 179 {
            assert(65537int % 179 != 0);
        } else if d == 180 {
            assert(65537int % 180 != 0);
        } else if d == 181 {
            assert(65537int % 181 != 0);
        } else if d == 182 {
            assert(65537int % 182 != 0);
        } else if d == 183 {
            assert(65537int % 183 != 0);
        } else if d == 184 {
            assert(65537int % 184 != 0);
        } else if d == 185 {
            assert(65537int % 185 != 0);
        } else if d == 186 {
            assert(65537int % 186 != 0);
        } else if d == 187 {
            assert(65537int % 187 != 0);
        } else if d == 188 {
            assert(65537int % 188 != 0);
        } else if d == 189 {
            assert(65537int % 189 != 0);
        } else if d == 190 {
            assert(65537int % 190 != 0);
        } else if d == 191 {
            assert(65537int % 191 != 0);
        } else if d == 192 {
            assert(65537int % 192 != 0);
        } else if d == 193 {
            assert(65537int % 193 != 0);
        } else if d == 194 {
            assert(65537int % 194 != 0);
        } else if d == 195 {
            assert(65537int % 195 != 0);
        } else if d == 196 {
            assert(65537int % 196 != 0);
        } else if d == 197 {
            assert(65537int % 197 != 0);
        } else if d == 198 {
            assert(65537int % 198 != 0);
        } else if d == 199 {
            assert(65537int % 199 != 0);
        } else if d == 200 {
            assert(65537int % 200 != 0);
        } else if d == 201 {
            assert(65537int % 201 != 0);
        } else if d == 202 {
            assert(65537int % 202 != 0);
        } else if d == 203 {
            assert(65537int % 203 != 0);
        } else if d == 204 {
            assert(65537int % 204 != 0);
        } else if d == 205 {
            assert(65537int % 205 != 0);
        } else if d == 206 {
            assert(65537int % 206 != 0);
        } else if d == 207 {
            assert(65537int % 207 != 0);
        } else if d == 208 {
            assert(65537int % 208 != 0);
        } else if d == 209 {
            assert(65537int % 209 != 0);
        } else if d == 210 {
            assert(65537int % 210 != 0);
        } else if d == 211 {
            assert(65537int % 211 != 0);
        } else if d == 212 {
            assert(65537int % 212 != 0);
        } else if d == 213 {
            assert(65537int % 213 != 0);
        } else if d == 214 {
            assert(65537int % 214 != 0);
        } else if d == 215 {
            assert(65537int % 215 != 0);
        } else if d == 216 {
            assert(65537int % 216 != 0);
        } else if d == 217 {
            assert(65537int % 217 != 0);
        } else if d == 218 {
            assert(65537int % 218 != 0);
        } else if d == 219 {
            assert(65537int % 219 != 0);
        } else if d == 220 {
            assert(65537int % 220 != 0);
        } else if d == 221 {
            assert(65537int % 221 != 0);
        } else if d == 222 {
            assert(65537int % 222 != 0);
        } else if d == 223 {
            assert(65537int % 223 != 0);
        } else if d == 224 {
            assert(65537int % 224 != 0);
        } else if d == 225 {
            assert(65537int % 225 != 0);
        } else if d == 226 {
            assert(65537int % 226 != 0);
        } else if d == 227 {
            assert(65537int % 227 != 0);
        } else if d == 228 {
            assert(65537int % 228 != 0);
        } else if d == 229 {
            assert(65537int % 229 != 0);
        } else if d == 230 {
            assert(65537int % 230 != 0);
        } else if d == 231 {
            assert(65537int % 231 != 0);
        } else if d == 232 {
            assert(65537int % 232 != 0);
        } else if d == 233 {
            assert(65537int % 233 != 0);
        } else if d == 234 {
            assert(65537int % 234 != 0);
        } else if d == 235 {
            assert(65537int % 235 != 0);
        } else if d == 236 {
            assert(65537int % 236 != 0);
        } else if d == 237 {
            assert(65537int % 237 != 0);
        } else if d == 238 {
            assert(65537int % 238 != 0);
        } else if d == 239 {
            assert(65537int % 239 != 0);
        } else if d == 240 {
            assert(65537int % 240 != 0);
        } else if d == 241 {
            assert(65537int % 241 != 0);
        } else if d == 242 {
            assert(65537int % 242 != 0);
        } else if d == 243 {
            assert(65537int % 243 != 0);
        } else if d == 244 {
            assert(65537int % 244 != 0);
        } else if d == 245 {
            assert(65537int % 245 != 0);
        } else if d == 246 {
            assert(65537int % 246 != 0);
        } else if d == 247 {
            assert(65537int % 247 != 0);
        } else if d == 248 {
            assert(65537int % 248 != 0);
        } else if d == 249 {
            assert(65537int % 249 != 0);
        } else if d == 250 {
            assert(65537int % 250 != 0);
        } else if d == 251 {
            assert(65537int % 251 != 0);
        } else if d == 252 {
            assert(65537int % 252 != 0);
        } else if d == 253 {
            assert(65537int % 253 != 0);
        } else if d == 254 {
            assert(65537int % 254 != 0);
        } else if d == 255 {
            assert(65537int % 255 != 0);
        } else if d == 256 {
            assert(65537int % 256 != 0);
        }
    }
}


/// The greatest common divisor, by Euclid's recursion.
pub open spec fn gcd(a: nat, b: nat) -> nat
    decreases b,
{
    if b == 0 {
        a
    } else {
        gcd(b, a % b)
    }
}

proof fn lemma_divides_sum(x: int, y: int, c: int, d: int)
    requires
        d > 0,
        x % d == 0,
        y % d == 0,
    ensures
        (c * y + x) % d == 0,
{
    vstd::arithmetic::div_mod::lemma_fundamental_div_mod(x, d);
    vstd::arithmetic::div_mod::lemma_fundamental_div_mod(y, d);
    let t = c * (y / d) + x / d;
    assert(c * y + x == d * t) by (nonlinear_arith)
        requires
            x == d * (x / d),
            y == d * (y / d),
            t == c * (y / d) + x / d,
    ;
    vstd::arithmetic::div_mod::lemma_mod_multiples_basic(t, d);
    vstd::arithmetic::mul::lemma_mul_is_commutative(d, t);
}

/// `u a + v b`.
pub open spec fn combination(u: int, a: int, v: int, b: int) -> int {
    u * a + v * b
}

/// Bezout: the gcd divides both arguments and is an integer combination of them.
proof fn lemma_bezout(a: nat, b: nat)
    ensures
        a > 0 || b > 0 ==> gcd(a, b) > 0,
        gcd(a, b) > 0 ==> a as int % gcd(a, b) as int == 0 && b as int % gcd(a, b) as int == 0,
        exists|u: int, v: int| #[trigger] combination(u, a as int, v, b as int) == gcd(a, b),
    decreases b,
{
    if b == 0 {
        assert(combination(1, a as int, 0, b as int) == gcd(a, b));
        if a > 0 {
            vstd::arithmetic::div_mod::lemma_mod_self_0(a as int);
            assert(0int % (a as int) == 0);
        }
    } else {
        let r = a % b;
        let g = gcd(b, r);
        lemma_bezout(b, r);
        vstd::arithmetic::div_mod::lemma_fundamental_div_mod(a as int, b as int);
        let t = (a / b) as int;
        if g > 0 {
            lemma_divides_sum(r as int, b as int, t, g as int);
            assert(a as int == t * b + r) by {
                vstd::arithmetic::mul::lemma_mul_is_commutative(t, b as int);
            }
        }
        let (u, v) = choose|u: int, v: int| #[trigger] combination(u, b as int, v, r as int) == g;
        assert((v * a) + (u - v * t) * b == g) by (nonlinear_arith)
            requires
                u * b + v * r == g,
                a == b * t + r,
        ;
        assert(combination(v, a as int, u - v * t, b as int) == gcd(a, b));
    }
}

/// A positive divisor of a positive number is at most that number.
proof fn lemma_divisor_at_most(d: int, x: int)
    requires
        d > 0,
        x > 0,
        x % d == 0,
    ensures
        d <= x,
{
    vstd::arithmetic::div_mod::lemma_fundamental_div_mod(x, d);
    assert(x / d >= 1) by (nonlinear_arith)
        requires
            x == d * (x / d),
            x > 0,
            d > 0,
    ;
    assert(d <= d * (x / d)) by (nonlinear_arith)
        requires
            x / d >= 1,
            d > 0,
    ;
}

/// `q` has no divisor strictly between 1 and itself when none lies in `[2, s]`, `s` its square root.
proof fn lemma_prime_from_trial(q: int, s: int)
    requires
        q >= 2,
        s >= 1,
        s * s <= q < (s + 1) * (s + 1),
        forall|d: int| 2 <= d <= s ==> #[trigger] (q % d) != 0,
    ensures
        forall|d: int| 1 < d < q ==> #[trigger] (q % d) != 0,
{
    assert forall|d: int| 1 < d < q implies #[trigger] (q % d) != 0 by {
        if q % d == 0 && d > s {
            vstd::arithmetic::div_mod::lemma_fundamental_div_mod(q, d);
            let e = q / d;
            assert(e < s + 1) by (nonlinear_arith)
                requires
                    q == d * e,
                    d >= s + 1,
                    q < (s + 1) * (s + 1),
                    s >= 1,
            ;
            assert(e >= 2) by (nonlinear_arith)
                requires
                    q == d * e,
                    d < q,
                    d > 1,
            ;
            vstd::arithmetic::div_mod::lemma_mod_multiples_basic(d, e);
            vstd::arithmetic::mul::lemma_mul_is_commutative(d, e);
            assert(q % e == 0);
        }
    }
}

/// Euclid's lemma for a prime `q`: a `k` that divides `q x` but is not a multiple of `q`
/// divides `x`.
proof fn lemma_euclid_prime(k: int, q: int, x: int)
    requires
        k > 0,
        q >= 2,
        forall|d: int| 1 < d < q ==> #[trigger] (q % d) != 0,
        k % q != 0,
        (q * x) % k == 0,
    ensures
        x % k == 0,
{
    lemma_bezout(k as nat, q as nat);
    let g = gcd(k as nat, q as nat) as int;
    lemma_divisor_at_most(g, q);
    if g != 1 {
        if g < q {
            assert(q % g != 0);
        } else {
            assert(g == q);
        }
    }
    assert(g == 1);
    let (u, v) = choose|u: int, v: int| #[trigger] combination(u, k, v, q) == gcd(k as nat, q as nat);
    assert(x == (u * x) * k + v * (q * x)) by (nonlinear_arith)
        requires
            u * k + v * q == 1,
    ;
    vstd::arithmetic::div_mod::lemma_mod_multiples_basic(u * x, k);
    lemma_divides_sum((u * x) * k, q * x, v, k);
}

proof fn lemma_listed_primes()
    ensures
        forall|d: int| 1 < d < 2 ==> #[trigger] (2int % d) != 0,
        forall|d: int| 1 < d < 3 ==> #[trigger] (3int % d) != 0,
        forall|d: int| 1 < d < 5 ==> #[trigger] (5int % d) != 0,
        forall|d: int| 1 < d < 17 ==> #[trigger] (17int % d) != 0,
        forall|d: int| 1 < d < 257 ==> #[trigger] (257int % d) != 0,
        forall|d: int| 1 < d < 65537 ==> #[trigger] (65537int % d) != 0,
{
    assert forall|d: int| 1 < d < 3 implies #[trigger] (3int % d) != 0 by {
        assert(d == 2);
    }
    lemma_no_small_divisor_5();
    lemma_prime_from_trial(5, 2);
    lemma_no_small_divisor_17();
    lemma_prime_from_trial(17, 4);
    lemma_no_small_divisor_257();
    lemma_prime_from_trial(257, 16);
    lemma_no_small_divisor_65537();
    lemma_prime_from_trial(65537, 256);
}

/// A divisor of `P - 1` that is a multiple of none of its prime factors
/// `2, 3, 5, 17, 257, 65537` is 1.
proof fn lemma_divisor_without_listed_factor(k: int)
    requires
        k >= 1,
        ((P - 1) as int) % k == 0,
        k % 2 != 0,
        k % 3 != 0,
        k % 5 != 0,
        k % 17 != 0,
        k % 257 != 0,
        k % 65537 != 0,
    ensures
        k == 1,
{
    lemma_listed_primes();
    lemma_euclid_prime(k, 2, 9223372034707292160);
    lemma_euclid_prime(k, 2, 4611686017353646080);
    lemma_euclid_prime(k, 2, 2305843008676823040);
    lemma_euclid_prime(k, 2, 1152921504338411520);
    lemma_euclid_prime(k, 2, 576460752169205760);
    lemma_euclid_prime(k, 2, 288230376084602880);
    lemma_euclid_prime(k, 2, 144115188042301440);
    lemma_euclid_prime(k, 2, 72057594021150720);
    lemma_euclid_prime(k, 2, 36028797010575360);
    lemma_euclid_prime(k, 2, 18014398505287680);
    lemma_euclid_prime(k, 2, 9007199252643840);
    lemma_euclid_prime(k, 2, 4503599626321920);
    lemma_euclid_prime(k, 2, 2251799813160960);
    lemma_euclid_prime(k, 2, 1125899906580480);
    lemma_euclid_prime(k, 2, 562949953290240);
    lemma_euclid_prime(k, 2, 281474976645120);
    lemma_euclid_prime(k, 2, 140737488322560);
    lemma_euclid_prime(k, 2, 70368744161280);
    lemma_euclid_prime(k, 2, 35184372080640);
    lemma_euclid_prime(k, 2, 17592186040320);
    lemma_euclid_prime(k, 2, 8796093020160);
    lemma_euclid_prime(k, 2, 4398046510080);
    lemma_euclid_prime(k, 2, 2199023255040);
    lemma_euclid_prime(k, 2, 1099511627520);
    lemma_euclid_prime(k, 2, 549755813760);
    lemma_euclid_prime(k, 2, 274877906880);
    lemma_euclid_prime(k, 2, 137438953440);
    lemma_euclid_prime(k, 2, 68719476720);
    lemma_euclid_prime(k, 2, 34359738360);
    lemma_euclid_prime(k, 2, 17179869180);
    lemma_euclid_prime(k, 2, 8589934590);
    lemma_euclid_prime(k, 2, 4294967295);
    lemma_euclid_prime(k, 3, 1431655765);
    lemma_euclid_prime(k, 5, 286331153);
    lemma_euclid_prime(k, 17, 16843009);
    lemma_euclid_prime(k, 257, 65537);
    lemma_euclid_prime(k, 65537, 1);
    if k > 1 {
        vstd::arithmetic::div_mod::lemma_small_mod(1, k as nat);
    }
}


/// `7^m == 1` with `m >= 1`.
pub open spec fn returns_to_one(m: nat) -> bool {
    m >= 1 && pow(7, m) % (P as int) == 1
}

proof fn lemma_least_return(b: nat)
    requires
        returns_to_one(b),
    ensures
        exists|o: nat| returns_to_one(o) && forall|m: nat| 1 <= m < o ==> !#[trigger] returns_to_one(m),
    decreases b,
{
    if exists|m: nat| 1 <= m < b && #[trigger] returns_to_one(m) {
        let m = choose|m: nat| 1 <= m < b && #[trigger] returns_to_one(m);
        lemma_least_return(m);
    } else {
        assert(forall|m: nat| 1 <= m < b ==> !#[trigger] returns_to_one(m));
    }
}

/// `(7^o)^t` is one modulo `P` when `7^o` is.
proof fn lemma_power_of_one(o: nat, t: nat)
    requires
        pow(7, o) % (P as int) == 1,
    ensures
        pow(7, o * t) % (P as int) == 1,
{
    let m = P as int;
    vstd::arithmetic::power::lemma_pow_multiplies(7, o, t);
    vstd::arithmetic::power::lemma_pow_mod_noop(pow(7, o), t, m);
    vstd::arithmetic::power::lemma1_pow(t);
}

/// No power `7^m` with `0 < m < P - 1` is one: 7 has order `P - 1`.
pub proof fn lemma_seven_has_full_order(m: nat)
    requires
        1 <= m < P - 1,
    ensures
        pow(7, m) % (P as int) != 1,
{
    let n = (P - 1) as nat;
    let md = P as int;
    lemma_seven_pow_full();
    lemma_least_return(n);
    let o = choose|o: nat| returns_to_one(o) && forall|m: nat| 1 <= m < o ==> !#[trigger] returns_to_one(m);
    // o divides n
    let t = n / o;
    let r = n % o;
    vstd::arithmetic::div_mod::lemma_fundamental_div_mod(n as int, o as int);
    lemma_power_of_one(o, t);
    lemma_pow_adds(7, o * t, r);
    vstd::arithmetic::div_mod::lemma_mul_mod_noop(pow(7, o * t), pow(7, r), md);
    assert(o * t + r == n) by {
        vstd::arithmetic::mul::lemma_mul_is_commutative(o as int, t as int);
    }
    assert(pow(7, r) % md == 1) by {
        assert((1 * (pow(7, r) % md)) % md == 1);
        vstd::arithmetic::div_mod::lemma_mod_twice(pow(7, r), md);
    }
    if r != 0 {
        assert(returns_to_one(r));
    }
    assert(r == 0);
    // the cofactor t is 1, else a prime factor q of t gives 7^(n/q) == 1
    assert(n as int % t as int == 0) by {
        vstd::arithmetic::div_mod::lemma_mod_multiples_basic(o as int, t as int);
        vstd::arithmetic::mul::lemma_mul_is_commutative(o as int, t as int);
    }
    assert(t >= 1) by (nonlinear_arith)
        requires
            n == o * t,
            n > 0,
    ;
    if t > 1 {
        if t % 2 == 0 {
            lemma_cofactor(o, t, 2);
            lemma_seven_pow_half();
            assert(((P - 1) as nat / 2) as nat == 9223372034707292160);
        } else if t % 3 == 0 {
            lemma_cofactor(o, t, 3);
            lemma_seven_pow_third();
        } else if t % 5 == 0 {
            lemma_cofactor(o, t, 5);
            lemma_seven_pow_fifth();
        } else if t % 17 == 0 {
            lemma_cofactor(o, t, 17);
            lemma_seven_pow_seventeenth();
        } else if t % 257 == 0 {
            lemma_cofactor(o, t, 257);
            lemma_seven_pow_two_fifty_seventh();
        } else if t % 65537 == 0 {
            lemma_cofactor(o, t, 65537);
            lemma_seven_pow_sixty_five_thousand_five_hundred_thirty_seventh();
        } else {
            lemma_divisor_without_listed_factor(t as int);
        }
    }
    assert(t == 1);
    assert(o * t == n);
    assert(o * 1 == o);
    assert(o == n);
    assert(!returns_to_one(m));
}

/// With `n == o t` and `q` dividing `t`, `7^(n / q)` is a power of `7^o`.
proof fn lemma_cofactor(o: nat, t: nat, q: nat)
    requires
        q >= 2,
        t % q == 0,
        o * t == (P - 1) as nat,
        pow(7, o) % (P as int) == 1,
    ensures
        pow(7, ((P - 1) as nat / q) as nat) % (P as int) == 1,
{
    vstd::arithmetic::div_mod::lemma_fundamental_div_mod(t as int, q as int);
    let t2 = t / q;
    assert(((P - 1) as nat / q) as nat == o * t2) by (nonlinear_arith)
        requires
            t == q * t2,
            o * t == (P - 1) as nat,
            q >= 2,
    ;
    lemma_power_of_one(o, t2);
}

proof fn lemma_seven_power_unit(i: nat)
    requires
        i <= P - 1,
    ensures
        fmul(pow(7, i) % (P as int), pow(7, ((P - 1) - i) as nat) % (P as int)) == 1,
{
    let md = P as int;
    lemma_seven_pow_full();
    lemma_pow_adds(7, i, ((P - 1) - i) as nat);
    vstd::arithmetic::div_mod::lemma_mul_mod_noop(pow(7, i), pow(7, ((P - 1) - i) as nat), md);
}

/// Every nonzero element is a power of 7.
pub proof fn lemma_seven_generates(a: int)
    requires
        0 < a < P,
    ensures
        exists|i: nat| i < P - 1 && #[trigger] (pow(7, i) % (P as int)) == a,
{
    let n = (P - 1) as int;
    let md = P as int;
    let f = |i: int| pow(7, i as nat) % md;
    let dom = set_int_range(0, n);
    let img = dom.map(f);
    lemma_int_range(0, n);
    assert forall|i: int, j: int| dom.contains(i) && dom.contains(j) && #[trigger] f(i) == #[trigger] f(j) implies i == j by {
        if i != j {
            let (lo, hi) = if i < j { (i, j) } else { (j, i) };
            lemma_powers_distinct(lo as nat, hi as nat);
        }
    }
    lemma_map_size(dom, img, f);
    let target = set_int_range(1, md);
    lemma_int_range(1, md);
    assert forall|x: int| img.contains(x) implies target.contains(x) by {
        let i = choose|i: int| dom.contains(i) && f(i) == x;
        lemma_seven_power_unit(i as nat);
        if x == 0 {
            assert(fmul(0, pow(7, ((P - 1) - i) as nat) % md) == 0);
        }
    }
    lemma_subset_equality(img, target);
    assert(target.contains(a));
    let i = choose|i: int| dom.contains(i) && f(i) == a;
    assert(pow(7, i as nat) % md == a);
}

proof fn lemma_powers_distinct(i: nat, j: nat)
    requires
        i < j < P - 1,
    ensures
        pow(7, i) % (P as int) != pow(7, j) % (P as int),
{
    let md = P as int;
    let d = (j - i) as nat;
    if pow(7, i) % md == pow(7, j) % md {
        // 7^(j-i) == 7^(n-i) 7^j == 7^(n-i) 7^i == 1
        let inv = pow(7, ((P - 1) - i) as nat) % md;
        lemma_seven_power_unit(i);
        lemma_pow_adds(7, i, d);
        let a = pow(7, i) % md;
        let b = pow(7, d) % md;
        vstd::arithmetic::div_mod::lemma_mul_mod_noop(pow(7, i), pow(7, d), md);
        assert(fmul(a, b) == a);
        crate::field::lemma_fmul_assoc(inv, a, b);
        crate::field::lemma_fmul_comm(inv, a);
        assert(fmul(fmul(inv, a), b) == fmul(inv, a));
        assert(fmul(1, b) == b);
        lemma_seven_has_full_order(d);
    }
}

/// Every nonzero element of the field has an inverse.
pub proof fn lemma_nonzero_is_unit(a: int)
    requires
        0 < a < P,
    ensures
        is_unit(a),
{
    lemma_seven_generates(a);
    let i = choose|i: nat| i < P - 1 && #[trigger] (pow(7, i) % (P as int)) == a;
    lemma_seven_power_unit(i);
}

/// Fermat: every nonzero element raised to `P - 1` is one.
pub proof fn lemma_fermat(a: FieldElement)
    requires
        a@ != 0,
    ensures
        pow(a@, (P - 1) as nat) % (P as int) == 1,
{
    let md = P as int;
    let n = (P - 1) as nat;
    lemma_view_range(a);
    lemma_seven_generates(a@);
    let i = choose|i: nat| i < P - 1 && #[trigger] (pow(7, i) % md) == a@;
    vstd::arithmetic::power::lemma_pow_mod_noop(pow(7, i), n, md);
    vstd::arithmetic::power::lemma_pow_multiplies(7, i, n);
    vstd::arithmetic::power::lemma_pow_multiplies(7, n, i);
    vstd::arithmetic::mul::lemma_mul_is_commutative(i as int, n as int);
    lemma_seven_pow_full();
    lemma_power_of_one(n, i);
}

} // verus!
