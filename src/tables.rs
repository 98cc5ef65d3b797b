//! The constant tables of the Raptor code and the two table-driven
//! generators built on them: the pseudo-random `rand` and the degree map `deg`.
use vstd::prelude::*;

verus! {

/// Q = 65521, the largest prime below 2^16.
pub const Q: u32 = 65521;

/// Exclusive upper end of the values handed to `deg` (2^20).
pub const DEG_RANGE: u32 = 1048576;

/// The value `rand(x, i, m)` takes: two table entries XORed, reduced mod `m`.
pub open spec fn rand_spec(x: u32, i: u32, m: u32) -> u32
    recommends
        m > 0,
{
    ((V0@[(x as int + i as int) % 256] ^ V1@[(x as int / 256 + i as int) % 256]) % m) as u32
}

/// The degree that `deg(v)` gives: the first degree whose cumulative
/// breakpoint lies above `v`.
pub open spec fn deg_spec(v: u32) -> u32 {
    if v < 10241 {
        1
    } else if v < 491582 {
        2
    } else if v < 712794 {
        3
    } else if v < 831695 {
        4
    } else if v < 948446 {
        10
    } else if v < 1032189 {
        11
    } else {
        40
    }
}

/// Pseudo-random number in `[0, m)` driven by the two tables.
pub fn rand(x: u32, i: u32, m: u32) -> (r: u32)
    requires
        m > 0,
    ensures
        r == rand_spec(x, i, m),
        r < m,
{
    let i0: usize = ((x as u64 + i as u64) % 256) as usize;
    let i1: usize = ((x as u64 / 256 + i as u64) % 256) as usize;
    let v0: u32 = V0[i0];
    let v1: u32 = V1[i1];
    (v0 ^ v1) % m
}

/// Degree of an encoding symbol from a value in `[0, 2^20)`.
pub fn deg(v: u32) -> (r: u32)
    ensures
        r == deg_spec(v),
        1 <= r <= 40,
{
    if v < 10241 {
        1
    } else if v < 491582 {
        2
    } else if v < 712794 {
        3
    } else if v < 831695 {
        4
    } else if v < 948446 {
        10
    } else if v < 1032189 {
        11
    } else {
        40
    }
}

/// The first table of random values.
pub const V0: [u32; 256] = [
    251291136, 3952231631, 3370958628, 4070167936, 123631495, 3351110283,
    3218676425, 2011642291, 774603218, 2402805061, 1004366930, 1843948209,
    428891132, 3746331984, 1591258008, 3067016507, 1433388735, 504005498,
    2032657933, 3419319784, 2805686246, 3102436986, 3808671154, 2501582075,
    3978944421, 246043949, 4016898363, 649743608, 1974987508, 2651273766,
    2357956801, 689605112, 715807172, 2722736134, 191939188, 3535520147,
    3277019569, 1470435941, 3763101702, 3232409631, 122701163, 3920852693,
    782246947, 372121310, 2995604341, 2045698575, 2332962102, 4005368743,
    218596347, 3415381967, 4207612806, 861117671, 3676575285, 2581671944,
    3312220480, 681232419, 307306866, 4112503940, 1158111502, 709227802,
    2724140433, 4201101115, 4215970289, 4048876515, 3031661061, 1909085522,
    510985033, 1361682810, 129243379, 3142379587, 2569842483, 3033268270,
    1658118006, 932109358, 1982290045, 2983082771, 3007670818, 3448104768,
    683749698, 778296777, 1399125101, 1939403708, 1692176003, 3868299200,
    1422476658, 593093658, 1878973865, 2526292949, 1591602827, 3986158854,
    3964389521, 2695031039, 1942050155, 424618399, 1347204291, 2669179716,
    2434425874, 2540801947, 1384069776, 4123580443, 1523670218, 2708475297,
    1046771089, 2229796016, 1255426612, 4213663089, 1521339547, 3041843489,
    420130494, 10677091, 515623176, 3457502702, 2115821274, 2720124766,
    3242576090, 854310108, 425973987, 325832382, 1796851292, 2462744411,
    1976681690, 1408671665, 1228817808, 3917210003, 263976645, 2593736473,
    2471651269, 4291353919, 650792940, 1191583883, 3046561335, 2466530435,
    2545983082, 969168436, 2019348792, 2268075521, 1169345068, 3250240009,
    3963499681, 2560755113, 911182396, 760842409, 3569308693, 2687243553,
    381854665, 2613828404, 2761078866, 1456668111, 883760091, 3294951678,
    1604598575, 1985308198, 1014570543, 2724959607, 3062518035, 3115293053,
    138853680, 4160398285, 3322241130, 2068983570, 2247491078, 3669524410,
    1575146607, 828029864, 3732001371, 3422026452, 3370954177, 4006626915,
    543812220, 1243116171, 3928372514, 2791443445, 4081325272, 2280435605,
    885616073, 616452097, 3188863436, 2780382310, 2340014831, 1208439576,
    258356309, 3837963200, 2075009450, 3214181212, 3303882142, 880813252,
    1355575717, 207231484, 2420803184, 358923368, 1617557768, 3272161958,
    1771154147, 2842106362, 1751209208, 1421030790, 658316681, 194065839,
    3241510581, 38625260, 301875395, 4176141739, 297312930, 2137802113,
    1502984205, 3669376622, 3728477036, 234652930, 2213589897, 2734638932,
    1129721478, 3187422815, 2859178611, 3284308411, 3819792700, 3557526733,
    451874476, 1740576081, 3592838701, 1709429513, 3702918379, 3533351328,
    1641660745, 179350258, 2380520112, 3936163904, 3685256204, 3156252216,
    1854258901, 2861641019, 3176611298, 834787554, 331353807, 517858103,
    3010168884, 4012642001, 2217188075, 3756943137, 3077882590, 2054995199,
    3081443129, 3895398812, 1141097543, 2376261053, 2626898255, 2554703076,
    401233789, 1460049922, 678083952, 1064990737, 940909784, 1673396780,
    528881783, 1712547446, 3629685652, 1358307511,
];

/// The second table of random values.
pub const V1: [u32; 256] = [
    807385413, 2043073223, 3336749796, 1302105833, 2278607931, 541015020,
    1684564270, 372709334, 3508252125, 1768346005, 1270451292, 2603029534,
    2049387273, 3891424859, 2152948345, 4114760273, 915180310, 3754787998,
    700503826, 2131559305, 1308908630, 224437350, 4065424007, 3638665944,
    1679385496, 3431345226, 1779595665, 3068494238, 1424062773, 1033448464,
    4050396853, 3302235057, 420600373, 2868446243, 311689386, 259047959,
    4057180909, 1575367248, 4151214153, 110249784, 3006865921, 4293710613,
    3501256572, 998007483, 499288295, 1205710710, 2997199489, 640417429,
    3044194711, 486690751, 2686640734, 2394526209, 2521660077, 49993987,
    3843885867, 4201106668, 415906198, 19296841, 2402488407, 2137119134,
    1744097284, 579965637, 2037662632, 852173610, 2681403713, 1047144830,
    2982173936, 910285038, 4187576520, 2589870048, 989448887, 3292758024,
    506322719, 176010738, 1865471968, 2619324712, 564829442, 1996870325,
    339697593, 4071072948, 3618966336, 2111320126, 1093955153, 957978696,
    892010560, 1854601078, 1873407527, 2498544695, 2694156259, 1927339682,
    1650555729, 183933047, 3061444337, 2067387204, 228962564, 3904109414,
    1595995433, 1780701372, 2463145963, 307281463, 3237929991, 3852995239,
    2398693510, 3754138664, 522074127, 146352474, 4104915256, 3029415884,
    3545667983, 332038910, 976628269, 3123492423, 3041418372, 2258059298,
    2139377204, 3243642973, 3226247917, 3674004636, 2698992189, 3453843574,
    1963216666, 3509855005, 2358481858, 747331248, 1957348676, 1097574450,
    2435697214, 3870972145, 1888833893, 2914085525, 4161315584, 1273113343,
    3269644828, 3681293816, 412536684, 1156034077, 3823026442, 1066971017,
    3598330293, 1979273937, 2079029895, 1195045909, 1071986421, 2712821515,
    3377754595, 2184151095, 750918864, 2585729879, 4249895712, 1832579367,
    1192240192, 946734366, 31230688, 3174399083, 3549375728, 1642430184,
    1904857554, 861877404, 3277825584, 4267074718, 3122860549, 666423581,
    644189126, 226475395, 307789415, 1196105631, 3191691839, 782852669,
    1608507813, 1847685900, 4069766876, 3931548641, 2526471011, 766865139,
    2115084288, 4259411376, 3323683436, 568512177, 3736601419, 1800276898,
    4012458395, 1823982, 27980198, 2023839966, 869505096, 431161506,
    1024804023, 1853869307, 3393537983, 1500703614, 3019471560, 1351086955,
    3096933631, 3034634988, 2544598006, 1327110766, 1392126306, 1131207048,
    3049669302, 1939089393, 3311521066, 1402657567, 2628924906, 1853327930,
    2008493009, 3046657013, 1264546069, 2233009716, 4150937574, 4262908478,
    2127549099, 3669823604, 3519225000, 2614651393, 1346897087, 1405812811,
    2806005541, 1937937024, 3127226606, 1022931659, 2225307016, 3153766208,
    3217287003, 2217541592, 1302893937, 1326733131, 2127216373, 3087312826,
    3838838599, 2347640962, 3624149735, 2046233810, 1432045232, 2893003393,
    1418225131, 3813524373, 4072183428, 3698148155, 1713458148, 2217185050,
    3059386102, 1433962049, 3012099451, 3567734812, 2087839648, 1811087224,
    3019004024, 4119891155, 1622233633, 1441318001, 860934406, 2130474138,
    3116305659, 2520418017, 1498883128, 1402508064,
];

} // verus!
