//! Quarter-degree sine table for binary angles (1024 entries, Q16.16).

use vstd::prelude::*;

verus! {

/// `SIN_TABLE_SPEC()[i]` is `sin(2*pi*i/1024)` in Q16.16, rounded to nearest.
pub open spec fn sin_table_spec() -> Seq<i32> {
    seq![
        0i32, 402i32, 804i32, 1206i32, 1608i32, 2010i32, 2412i32, 2814i32,
        3216i32, 3617i32, 4019i32, 4420i32, 4821i32, 5222i32, 5623i32, 6023i32,
        6424i32, 6824i32, 7224i32, 7623i32, 8022i32, 8421i32, 8820i32, 9218i32,
        9616i32, 10014i32, 10411i32, 10808i32, 11204i32, 11600i32, 11996i32, 12391i32,
        12785i32, 13180i32, 13573i32, 13966i32, 14359i32, 14751i32, 15143i32, 15534i32,
        15924i32, 16314i32, 16703i32, 17091i32, 17479i32, 17867i32, 18253i32, 18639i32,
        19024i32, 19409i32, 19792i32, 20175i32, 20557i32, 20939i32, 21320i32, 21699i32,
        22078i32, 22457i32, 22834i32, 23210i32, 23586i32, 23961i32, 24335i32, 24708i32,
        25080i32, 25451i32, 25821i32, 26190i32, 26558i32, 26925i32, 27291i32, 27656i32,
        28020i32, 28383i32, 28745i32, 29106i32, 29466i32, 29824i32, 30182i32, 30538i32,
        30893i32, 31248i32, 31600i32, 31952i32, 32303i32, 32652i32, 33000i32, 33347i32,
        33692i32, 34037i32, 34380i32, 34721i32, 35062i32, 35401i32, 35738i32, 36075i32,
        36410i32, 36744i32, 37076i32, 37407i32, 37736i32, 38064i32, 38391i32, 38716i32,
        39040i32, 39362i32, 39683i32, 40002i32, 40320i32, 40636i32, 40951i32, 41264i32,
        41576i32, 41886i32, 42194i32, 42501i32, 42806i32, 43110i32, 43412i32, 43713i32,
        44011i32, 44308i32, 44604i32, 44898i32, 45190i32, 45480i32, 45769i32, 46056i32,
        46341i32, 46624i32, 46906i32, 47186i32, 47464i32, 47741i32, 48015i32, 48288i32,
        48559i32, 48828i32, 49095i32, 49361i32, 49624i32, 49886i32, 50146i32, 50404i32,
        50660i32, 50914i32, 51166i32, 51417i32, 51665i32, 51911i32, 52156i32, 52398i32,
        52639i32, 52878i32, 53114i32, 53349i32, 53581i32, 53812i32, 54040i32, 54267i32,
        54491i32, 54714i32, 54934i32, 55152i32, 55368i32, 55582i32, 55794i32, 56004i32,
        56212i32, 56418i32, 56621i32, 56823i32, 57022i32, 57219i32, 57414i32, 57607i32,
        57798i32, 57986i32, 58172i32, 58356i32, 58538i32, 58718i32, 58896i32, 59071i32,
        59244i32, 59415i32, 59583i32, 59750i32, 59914i32, 60075i32, 60235i32, 60392i32,
        60547i32, 60700i32, 60851i32, 60999i32, 61145i32, 61288i32, 61429i32, 61568i32,
        61705i32, 61839i32, 61971i32, 62101i32, 62228i32, 62353i32, 62476i32, 62596i32,
        62714i32, 62830i32, 62943i32, 63054i32, 63162i32, 63268i32, 63372i32, 63473i32,
        63572i32, 63668i32, 63763i32, 63854i32, 63944i32, 64031i32, 64115i32, 64197i32,
        64277i32, 64354i32, 64429i32, 64501i32, 64571i32, 64639i32, 64704i32, 64766i32,
        64827i32, 64884i32, 64940i32, 64993i32, 65043i32, 65091i32, 65137i32, 65180i32,
        65220i32, 65259i32, 65294i32, 65328i32, 65358i32, 65387i32, 65413i32, 65436i32,
        65457i32, 65476i32, 65492i32, 65505i32, 65516i32, 65525i32, 65531i32, 65535i32,
        65536i32, 65535i32, 65531i32, 65525i32, 65516i32, 65505i32, 65492i32, 65476i32,
        65457i32, 65436i32, 65413i32, 65387i32, 65358i32, 65328i32, 65294i32, 65259i32,
        65220i32, 65180i32, 65137i32, 65091i32, 65043i32, 64993i32, 64940i32, 64884i32,
        64827i32, 64766i32, 64704i32, 64639i32, 64571i32, 64501i32, 64429i32, 64354i32,
        64277i32, 64197i32, 64115i32, 64031i32, 63944i32, 63854i32, 63763i32, 63668i32,
        63572i32, 63473i32, 63372i32, 63268i32, 63162i32, 63054i32, 62943i32, 62830i32,
        62714i32, 62596i32, 62476i32, 62353i32, 62228i32, 62101i32, 61971i32, 61839i32,
        61705i32, 61568i32, 61429i32, 61288i32, 61145i32, 60999i32, 60851i32, 60700i32,
        60547i32, 60392i32, 60235i32, 60075i32, 59914i32, 59750i32, 59583i32, 59415i32,
        59244i32, 59071i32, 58896i32, 58718i32, 58538i32, 58356i32, 58172i32, 57986i32,
        57798i32, 57607i32, 57414i32, 57219i32, 57022i32, 56823i32, 56621i32, 56418i32,
        56212i32, 56004i32, 55794i32, 55582i32, 55368i32, 55152i32, 54934i32, 54714i32,
        54491i32, 54267i32, 54040i32, 53812i32, 53581i32, 53349i32, 53114i32, 52878i32,
        52639i32, 52398i32, 52156i32, 51911i32, 51665i32, 51417i32, 51166i32, 50914i32,
        50660i32, 50404i32, 50146i32, 49886i32, 49624i32, 49361i32, 49095i32, 48828i32,
        48559i32, 48288i32, 48015i32, 47741i32, 47464i32, 47186i32, 46906i32, 46624i32,
        46341i32, 46056i32, 45769i32, 45480i32, 45190i32, 44898i32, 44604i32, 44308i32,
        44011i32, 43713i32, 43412i32, 43110i32, 42806i32, 42501i32, 42194i32, 41886i32,
        41576i32, 41264i32, 40951i32, 40636i32, 40320i32, 40002i32, 39683i32, 39362i32,
        39040i32, 38716i32, 38391i32, 38064i32, 37736i32, 37407i32, 37076i32, 36744i32,
        36410i32, 36075i32, 35738i32, 35401i32, 35062i32, 34721i32, 34380i32, 34037i32,
        33692i32, 33347i32, 33000i32, 32652i32, 32303i32, 31952i32, 31600i32, 31248i32,
        30893i32, 30538i32, 30182i32, 29824i32, 29466i32, 29106i32, 28745i32, 28383i32,
        28020i32, 27656i32, 27291i32, 26925i32, 26558i32, 26190i32, 25821i32, 25451i32,
        25080i32, 24708i32, 24335i32, 23961i32, 23586i32, 23210i32, 22834i32, 22457i32,
        22078i32, 21699i32, 21320i32, 20939i32, 20557i32, 20175i32, 19792i32, 19409i32,
        19024i32, 18639i32, 18253i32, 17867i32, 17479i32, 17091i32, 16703i32, 16314i32,
        15924i32, 15534i32, 15143i32, 14751i32, 14359i32, 13966i32, 13573i32, 13180i32,
        12785i32, 12391i32, 11996i32, 11600i32, 11204i32, 10808i32, 10411i32, 10014i32,
        9616i32, 9218i32, 8820i32, 8421i32, 8022i32, 7623i32, 7224i32, 6824i32,
        6424i32, 6023i32, 5623i32, 5222i32, 4821i32, 4420i32, 4019i32, 3617i32,
        3216i32, 2814i32, 2412i32, 2010i32, 1608i32, 1206i32, 804i32, 402i32,
        0i32, -402i32, -804i32, -1206i32, -1608i32, -2010i32, -2412i32, -2814i32,
        -3216i32, -3617i32, -4019i32, -4420i32, -4821i32, -5222i32, -5623i32, -6023i32,
        -6424i32, -6824i32, -7224i32, -7623i32, -8022i32, -8421i32, -8820i32, -9218i32,
        -9616i32, -10014i32, -10411i32, -10808i32, -11204i32, -11600i32, -11996i32, -12391i32,
        -12785i32, -13180i32, -13573i32, -13966i32, -14359i32, -14751i32, -15143i32, -15534i32,
        -15924i32, -16314i32, -16703i32, -17091i32, -17479i32, -17867i32, -18253i32, -18639i32,
        -19024i32, -19409i32, -19792i32, -20175i32, -20557i32, -20939i32, -21320i32, -21699i32,
        -22078i32, -22457i32, -22834i32, -23210i32, -23586i32, -23961i32, -24335i32, -24708i32,
        -25080i32, -25451i32, -25821i32, -26190i32, -26558i32, -26925i32, -27291i32, -27656i32,
        -28020i32, -28383i32, -28745i32, -29106i32, -29466i32, -29824i32, -30182i32, -30538i32,
        -30893i32, -31248i32, -31600i32, -31952i32, -32303i32, -32652i32, -33000i32, -33347i32,
        -33692i32, -34037i32, -34380i32, -34721i32, -35062i32, -35401i32, -35738i32, -36075i32,
        -36410i32, -36744i32, -37076i32, -37407i32, -37736i32, -38064i32, -38391i32, -38716i32,
        -39040i32, -39362i32, -39683i32, -40002i32, -40320i32, -40636i32, -40951i32, -41264i32,
        -41576i32, -41886i32, -42194i32, -42501i32, -42806i32, -43110i32, -43412i32, -43713i32,
        -44011i32, -44308i32, -44604i32, -44898i32, -45190i32, -45480i32, -45769i32, -46056i32,
        -46341i32, -46624i32, -46906i32, -47186i32, -47464i32, -47741i32, -48015i32, -48288i32,
        -48559i32, -48828i32, -49095i32, -49361i32, -49624i32, -49886i32, -50146i32, -50404i32,
        -50660i32, -50914i32, -51166i32, -51417i32, -51665i32, -51911i32, -52156i32, -52398i32,
        -52639i32, -52878i32, -53114i32, -53349i32, -53581i32, -53812i32, -54040i32, -54267i32,
        -54491i32, -54714i32, -54934i32, -55152i32, -55368i32, -55582i32, -55794i32, -56004i32,
        -56212i32, -56418i32, -56621i32, -56823i32, -57022i32, -57219i32, -57414i32, -57607i32,
        -57798i32, -57986i32, -58172i32, -58356i32, -58538i32, -58718i32, -58896i32, -59071i32,
        -59244i32, -59415i32, -59583i32, -59750i32, -59914i32, -60075i32, -60235i32, -60392i32,
        -60547i32, -60700i32, -60851i32, -60999i32, -61145i32, -61288i32, -61429i32, -61568i32,
        -61705i32, -61839i32, -61971i32, -62101i32, -62228i32, -62353i32, -62476i32, -62596i32,
        -62714i32, -62830i32, -62943i32, -63054i32, -63162i32, -63268i32, -63372i32, -63473i32,
        -63572i32, -63668i32, -63763i32, -63854i32, -63944i32, -64031i32, -64115i32, -64197i32,
        -64277i32, -64354i32, -64429i32, -64501i32, -64571i32, -64639i32, -64704i32, -64766i32,
        -64827i32, -64884i32, -64940i32, -64993i32, -65043i32, -65091i32, -65137i32, -65180i32,
        -65220i32, -65259i32, -65294i32, -65328i32, -65358i32, -65387i32, -65413i32, -65436i32,
        -65457i32, -65476i32, -65492i32, -65505i32, -65516i32, -65525i32, -65531i32, -65535i32,
        -65536i32, -65535i32, -65531i32, -65525i32, -65516i32, -65505i32, -65492i32, -65476i32,
        -65457i32, -65436i32, -65413i32, -65387i32, -65358i32, -65328i32, -65294i32, -65259i32,
        -65220i32, -65180i32, -65137i32, -65091i32, -65043i32, -64993i32, -64940i32, -64884i32,
        -64827i32, -64766i32, -64704i32, -64639i32, -64571i32, -64501i32, -64429i32, -64354i32,
        -64277i32, -64197i32, -64115i32, -64031i32, -63944i32, -63854i32, -63763i32, -63668i32,
        -63572i32, -63473i32, -63372i32, -63268i32, -63162i32, -63054i32, -62943i32, -62830i32,
        -62714i32, -62596i32, -62476i32, -62353i32, -62228i32, -62101i32, -61971i32, -61839i32,
        -61705i32, -61568i32, -61429i32, -61288i32, -61145i32, -60999i32, -60851i32, -60700i32,
        -60547i32, -60392i32, -60235i32, -60075i32, -59914i32, -59750i32, -59583i32, -59415i32,
        -59244i32, -59071i32, -58896i32, -58718i32, -58538i32, -58356i32, -58172i32, -57986i32,
        -57798i32, -57607i32, -57414i32, -57219i32, -57022i32, -56823i32, -56621i32, -56418i32,
        -56212i32, -56004i32, -55794i32, -55582i32, -55368i32, -55152i32, -54934i32, -54714i32,
        -54491i32, -54267i32, -54040i32, -53812i32, -53581i32, -53349i32, -53114i32, -52878i32,
        -52639i32, -52398i32, -52156i32, -51911i32, -51665i32, -51417i32, -51166i32, -50914i32,
        -50660i32, -50404i32, -50146i32, -49886i32, -49624i32, -49361i32, -49095i32, -48828i32,
        -48559i32, -48288i32, -48015i32, -47741i32, -47464i32, -47186i32, -46906i32, -46624i32,
        -46341i32, -46056i32, -45769i32, -45480i32, -45190i32, -44898i32, -44604i32, -44308i32,
        -44011i32, -43713i32, -43412i32, -43110i32, -42806i32, -42501i32, -42194i32, -41886i32,
        -41576i32, -41264i32, -40951i32, -40636i32, -40320i32, -40002i32, -39683i32, -39362i32,
        -39040i32, -38716i32, -38391i32, -38064i32, -37736i32, -37407i32, -37076i32, -36744i32,
        -36410i32, -36075i32, -35738i32, -35401i32, -35062i32, -34721i32, -34380i32, -34037i32,
        -33692i32, -33347i32, -33000i32, -32652i32, -32303i32, -31952i32, -31600i32, -31248i32,
        -30893i32, -30538i32, -30182i32, -29824i32, -29466i32, -29106i32, -28745i32, -28383i32,
        -28020i32, -27656i32, -27291i32, -26925i32, -26558i32, -26190i32, -25821i32, -25451i32,
        -25080i32, -24708i32, -24335i32, -23961i32, -23586i32, -23210i32, -22834i32, -22457i32,
        -22078i32, -21699i32, -21320i32, -20939i32, -20557i32, -20175i32, -19792i32, -19409i32,
        -19024i32, -18639i32, -18253i32, -17867i32, -17479i32, -17091i32, -16703i32, -16314i32,
        -15924i32, -15534i32, -15143i32, -14751i32, -14359i32, -13966i32, -13573i32, -13180i32,
        -12785i32, -12391i32, -11996i32, -11600i32, -11204i32, -10808i32, -10411i32, -10014i32,
        -9616i32, -9218i32, -8820i32, -8421i32, -8022i32, -7623i32, -7224i32, -6824i32,
        -6424i32, -6023i32, -5623i32, -5222i32, -4821i32, -4420i32, -4019i32, -3617i32,
        -3216i32, -2814i32, -2412i32, -2010i32, -1608i32, -1206i32, -804i32, -402i32,
    ]
}

/// The sine table as an array whose view is [`sin_table_spec`].
pub fn sin_table() -> (t: [i32; 1024])
    ensures
        t@ == sin_table_spec(),
{
    let t: [i32; 1024] = [
        0, 402, 804, 1206, 1608, 2010, 2412, 2814,
        3216, 3617, 4019, 4420, 4821, 5222, 5623, 6023,
        6424, 6824, 7224, 7623, 8022, 8421, 8820, 9218,
        9616, 10014, 10411, 10808, 11204, 11600, 11996, 12391,
        12785, 13180, 13573, 13966, 14359, 14751, 15143, 15534,
        15924, 16314, 16703, 17091, 17479, 17867, 18253, 18639,
        19024, 19409, 19792, 20175, 20557, 20939, 21320, 21699,
        22078, 22457, 22834, 23210, 23586, 23961, 24335, 24708,
        25080, 25451, 25821, 26190, 26558, 26925, 27291, 27656,
        28020, 28383, 28745, 29106, 29466, 29824, 30182, 30538,
        30893, 31248, 31600, 31952, 32303, 32652, 33000, 33347,
        33692, 34037, 34380, 34721, 35062, 35401, 35738, 36075,
        36410, 36744, 37076, 37407, 37736, 38064, 38391, 38716,
        39040, 39362, 39683, 40002, 40320, 40636, 40951, 41264,
        41576, 41886, 42194, 42501, 42806, 43110, 43412, 43713,
        44011, 44308, 44604, 44898, 45190, 45480, 45769, 46056,
        46341, 46624, 46906, 47186, 47464, 47741, 48015, 48288,
        48559, 48828, 49095, 49361, 49624, 49886, 50146, 50404,
        50660, 50914, 51166, 51417, 51665, 51911, 52156, 52398,
        52639, 52878, 53114, 53349, 53581, 53812, 54040, 54267,
        54491, 54714, 54934, 55152, 55368, 55582, 55794, 56004,
        56212, 56418, 56621, 56823, 57022, 57219, 57414, 57607,
        57798, 57986, 58172, 58356, 58538, 58718, 58896, 59071,
        59244, 59415, 59583, 59750, 59914, 60075, 60235, 60392,
        60547, 60700, 60851, 60999, 61145, 61288, 61429, 61568,
        61705, 61839, 61971, 62101, 62228, 62353, 62476, 62596,
        62714, 62830, 62943, 63054, 63162, 63268, 63372, 63473,
        63572, 63668, 63763, 63854, 63944, 64031, 64115, 64197,
        64277, 64354, 64429, 64501, 64571, 64639, 64704, 64766,
        64827, 64884, 64940, 64993, 65043, 65091, 65137, 65180,
        65220, 65259, 65294, 65328, 65358, 65387, 65413, 65436,
        65457, 65476, 65492, 65505, 65516, 65525, 65531, 65535,
        65536, 65535, 65531, 65525, 65516, 65505, 65492, 65476,
        65457, 65436, 65413, 65387, 65358, 65328, 65294, 65259,
        65220, 65180, 65137, 65091, 65043, 64993, 64940, 64884,
        64827, 64766, 64704, 64639, 64571, 64501, 64429, 64354,
        64277, 64197, 64115, 64031, 63944, 63854, 63763, 63668,
        63572, 63473, 63372, 63268, 63162, 63054, 62943, 62830,
        62714, 62596, 62476, 62353, 62228, 62101, 61971, 61839,
        61705, 61568, 61429, 61288, 61145, 60999, 60851, 60700,
        60547, 60392, 60235, 60075, 59914, 59750, 59583, 59415,
        59244, 59071, 58896, 58718, 58538, 58356, 58172, 57986,
        57798, 57607, 57414, 57219, 57022, 56823, 56621, 56418,
        56212, 56004, 55794, 55582, 55368, 55152, 54934, 54714,
        54491, 54267, 54040, 53812, 53581, 53349, 53114, 52878,
        52639, 52398, 52156, 51911, 51665, 51417, 51166, 50914,
        50660, 50404, 50146, 49886, 49624, 49361, 49095, 48828,
        48559, 48288, 48015, 47741, 47464, 47186, 46906, 46624,
        46341, 46056, 45769, 45480, 45190, 44898, 44604, 44308,
        44011, 43713, 43412, 43110, 42806, 42501, 42194, 41886,
        41576, 41264, 40951, 40636, 40320, 40002, 39683, 39362,
        39040, 38716, 38391, 38064, 37736, 37407, 37076, 36744,
        36410, 36075, 35738, 35401, 35062, 34721, 34380, 34037,
        33692, 33347, 33000, 32652, 32303, 31952, 31600, 31248,
        30893, 30538, 30182, 29824, 29466, 29106, 28745, 28383,
        28020, 27656, 27291, 26925, 26558, 26190, 25821, 25451,
        25080, 24708, 24335, 23961, 23586, 23210, 22834, 22457,
        22078, 21699, 21320, 20939, 20557, 20175, 19792, 19409,
        19024, 18639, 18253, 17867, 17479, 17091, 16703, 16314,
        15924, 15534, 15143, 14751, 14359, 13966, 13573, 13180,
        12785, 12391, 11996, 11600, 11204, 10808, 10411, 10014,
        9616, 9218, 8820, 8421, 8022, 7623, 7224, 6824,
        6424, 6023, 5623, 5222, 4821, 4420, 4019, 3617,
        3216, 2814, 2412, 2010, 1608, 1206, 804, 402,
        0, -402, -804, -1206, -1608, -2010, -2412, -2814,
        -3216, -3617, -4019, -4420, -4821, -5222, -5623, -6023,
        -6424, -6824, -7224, -7623, -8022, -8421, -8820, -9218,
        -9616, -10014, -10411, -10808, -11204, -11600, -11996, -12391,
        -12785, -13180, -13573, -13966, -14359, -14751, -15143, -15534,
        -15924, -16314, -16703, -17091, -17479, -17867, -18253, -18639,
        -19024, -19409, -19792, -20175, -20557, -20939, -21320, -21699,
        -22078, -22457, -22834, -23210, -23586, -23961, -24335, -24708,
        -25080, -25451, -25821, -26190, -26558, -26925, -27291, -27656,
        -28020, -28383, -28745, -29106, -29466, -29824, -30182, -30538,
        -30893, -31248, -31600, -31952, -32303, -32652, -33000, -33347,
        -33692, -34037, -34380, -34721, -35062, -35401, -35738, -36075,
        -36410, -36744, -37076, -37407, -37736, -38064, -38391, -38716,
        -39040, -39362, -39683, -40002, -40320, -40636, -40951, -41264,
        -41576, -41886, -42194, -42501, -42806, -43110, -43412, -43713,
        -44011, -44308, -44604, -44898, -45190, -45480, -45769, -46056,
        -46341, -46624, -46906, -47186, -47464, -47741, -48015, -48288,
        -48559, -48828, -49095, -49361, -49624, -49886, -50146, -50404,
        -50660, -50914, -51166, -51417, -51665, -51911, -52156, -52398,
        -52639, -52878, -53114, -53349, -53581, -53812, -54040, -54267,
        -54491, -54714, -54934, -55152, -55368, -55582, -55794, -56004,
        -56212, -56418, -56621, -56823, -57022, -57219, -57414, -57607,
        -57798, -57986, -58172, -58356, -58538, -58718, -58896, -59071,
        -59244, -59415, -59583, -59750, -59914, -60075, -60235, -60392,
        -60547, -60700, -60851, -60999, -61145, -61288, -61429, -61568,
        -61705, -61839, -61971, -62101, -62228, -62353, -62476, -62596,
        -62714, -62830, -62943, -63054, -63162, -63268, -63372, -63473,
        -63572, -63668, -63763, -63854, -63944, -64031, -64115, -64197,
        -64277, -64354, -64429, -64501, -64571, -64639, -64704, -64766,
        -64827, -64884, -64940, -64993, -65043, -65091, -65137, -65180,
        -65220, -65259, -65294, -65328, -65358, -65387, -65413, -65436,
        -65457, -65476, -65492, -65505, -65516, -65525, -65531, -65535,
        -65536, -65535, -65531, -65525, -65516, -65505, -65492, -65476,
        -65457, -65436, -65413, -65387, -65358, -65328, -65294, -65259,
        -65220, -65180, -65137, -65091, -65043, -64993, -64940, -64884,
        -64827, -64766, -64704, -64639, -64571, -64501, -64429, -64354,
        -64277, -64197, -64115, -64031, -63944, -63854, -63763, -63668,
        -63572, -63473, -63372, -63268, -63162, -63054, -62943, -62830,
        -62714, -62596, -62476, -62353, -62228, -62101, -61971, -61839,
        -61705, -61568, -61429, -61288, -61145, -60999, -60851, -60700,
        -60547, -60392, -60235, -60075, -59914, -59750, -59583, -59415,
        -59244, -59071, -58896, -58718, -58538, -58356, -58172, -57986,
        -57798, -57607, -57414, -57219, -57022, -56823, -56621, -56418,
        -56212, -56004, -55794, -55582, -55368, -55152, -54934, -54714,
        -54491, -54267, -54040, -53812, -53581, -53349, -53114, -52878,
        -52639, -52398, -52156, -51911, -51665, -51417, -51166, -50914,
        -50660, -50404, -50146, -49886, -49624, -49361, -49095, -48828,
        -48559, -48288, -48015, -47741, -47464, -47186, -46906, -46624,
        -46341, -46056, -45769, -45480, -45190, -44898, -44604, -44308,
        -44011, -43713, -43412, -43110, -42806, -42501, -42194, -41886,
        -41576, -41264, -40951, -40636, -40320, -40002, -39683, -39362,
        -39040, -38716, -38391, -38064, -37736, -37407, -37076, -36744,
        -36410, -36075, -35738, -35401, -35062, -34721, -34380, -34037,
        -33692, -33347, -33000, -32652, -32303, -31952, -31600, -31248,
        -30893, -30538, -30182, -29824, -29466, -29106, -28745, -28383,
        -28020, -27656, -27291, -26925, -26558, -26190, -25821, -25451,
        -25080, -24708, -24335, -23961, -23586, -23210, -22834, -22457,
        -22078, -21699, -21320, -20939, -20557, -20175, -19792, -19409,
        -19024, -18639, -18253, -17867, -17479, -17091, -16703, -16314,
        -15924, -15534, -15143, -14751, -14359, -13966, -13573, -13180,
        -12785, -12391, -11996, -11600, -11204, -10808, -10411, -10014,
        -9616, -9218, -8820, -8421, -8022, -7623, -7224, -6824,
        -6424, -6023, -5623, -5222, -4821, -4420, -4019, -3617,
        -3216, -2814, -2412, -2010, -1608, -1206, -804, -402,
    ];
    assert(t@ =~= sin_table_spec());
    t
}

} // verus!
