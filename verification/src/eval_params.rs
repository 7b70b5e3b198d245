//! Evaluation parameters.

use vstd::prelude::*;
use crate::text::{decimal, push_decimal};

verus! {

pub const PST_PAWN_MG: [i32; 64] = [
    0, 0, 0, 0, 0, 0, 0, 0,
    -106, -92, -89, -92, -86, 2, 29, 63,
    -106, -106, -47, -94, -42, -8, 54, 100,
    -70, -45, -10, 0, 0, 2, 84, 87,
    -50, 15, 21, 47, 72, 99, 129, 154,
    56, 71, 16, 92, 156, 242, 246, 274,
    114, 62, 186, 188, -46, 150, 55, -182,
    0, 0, 0, 0, 0, 0, 0, 0,
];

pub const PST_KNIGHT_MG: [i32; 64] = [
    -190, -107, -242, -182, -96, -117, -127, -94,
    -160, -139, -25, -39, -56, -85, -125, -114,
    -155, -76, -41, -15, 66, -39, -28, -98,
    -84, -28, 2, -25, -8, 42, 161, -62,
    -5, 34, 3, 115, -17, 102, 7, 155,
    -13, -18, 49, 170, 233, 278, 177, 124,
    -8, -71, 29, 130, 131, 22, -13, 39,
    -231, -89, -24, -40, 91, -62, 88, -133,
];

pub const PST_BISHOP_MG: [i32; 64] = [
    -52, 118, -2, -119, -114, -30, -32, -100,
    41, 62, 125, 5, -3, 9, 59, -18,
    79, 1, -1, 6, 35, -10, 44, 91,
    -15, 3, -43, 69, 36, 10, 21, 13,
    -23, 21, 95, 132, 77, 134, -5, -11,
    34, 116, -25, 176, 135, 207, 104, 225,
    50, 1, 12, 90, 104, 18, -10, 11,
    -141, 18, -61, -149, 1, -96, 8, 16,
];

pub const PST_ROOK_MG: [i32; 64] = [
    -191, -134, -142, -124, -81, -135, 21, -106,
    -285, -192, -176, -217, -202, -210, -95, -96,
    -55, -70, -142, -178, -38, -56, 81, 139,
    -129, -154, -116, -153, -116, -104, 45, -64,
    -69, -83, -54, 42, -4, 48, 36, 83,
    -15, 4, 2, 111, 140, 140, 130, 78,
    78, -25, 57, 113, 131, 135, 12, 70,
    94, 73, 128, 128, 134, 47, 90, 108,
];

pub const PST_QUEEN_MG: [i32; 64] = [
    -99, -85, -101, -51, -80, -151, -52, -61,
    -135, -77, -35, -34, -44, -64, -80, 72,
    -72, -32, -64, -107, -83, -75, -1, 62,
    -86, -66, -124, -77, -75, -65, 54, 43,
    -40, -70, -12, -9, -42, 28, 7, 57,
    -54, -49, 64, 77, 180, 234, 233, 250,
    -78, -57, 1, 115, 43, 239, 158, 182,
    -98, 30, 59, 150, 144, 79, 71, 152,
];

pub const PST_KING_MG: [i32; 64] = [
    20, 185, 154, -55, 47, -91, 173, 77,
    68, -37, -2, -170, -124, -46, 67, 56,
    -84, -19, -116, -157, -252, -185, -149, -206,
    -121, -40, -74, -108, -80, -66, -64, -106,
    -39, 16, -18, -45, -43, -31, 19, -61,
    -9, 66, 35, -17, 15, 51, 58, 12,
    41, 39, 0, 5, 15, 13, 34, -17,
    -39, 49, 43, -16, -50, -13, 32, 20,
];

pub const PST_PAWN_EG: [i32; 64] = [
    0, 0, 0, 0, 0, 0, 0, 0,
    140, 187, 95, -108, 87, 107, 120, -30,
    107, 55, 33, -17, 49, 19, 37, -65,
    110, 88, -27, -36, 7, 92, 28, 22,
    200, 68, 88, 28, 55, 82, 112, -6,
    160, 125, 107, 62, -17, 31, 120, 8,
    143, 57, 55, 41, -113, -2, 115, -99,
    0, 0, 0, 0, 0, 0, 0, 0,
];

pub const PST_KNIGHT_EG: [i32; 64] = [
    -143, -116, -104, -93, -23, -115, -147, -62,
    -71, -145, -31, -55, -53, -20, -25, -56,
    -71, -17, 60, 94, 21, -19, -59, -69,
    -106, 78, 73, 155, 159, 139, 87, -25,
    136, 150, 155, 232, 188, 135, 147, 142,
    88, -97, 141, 64, 15, 130, -36, 25,
    23, -13, 115, 132, 90, 2, 12, -25,
    -72, 43, 40, 65, 27, 20, 33, -51,
];

pub const PST_BISHOP_EG: [i32; 64] = [
    -80, -40, -51, -60, 34, -50, -76, -77,
    8, -55, 44, -26, -22, -117, 34, -76,
    -2, 91, 78, 54, 61, 32, -30, 68,
    38, 59, 127, -12, 64, 103, 53, -3,
    110, 201, 76, 220, 91, 71, 157, 95,
    29, -137, 39, 14, 72, 104, 29, 50,
    70, 16, -144, 300, 92, 76, -25, -29,
    125, 17, 156, -93, 248, -62, 67, -9,
];

pub const PST_ROOK_EG: [i32; 64] = [
    -55, -101, -36, -71, -82, -34, -157, -109,
    -63, -94, -68, -41, -113, -96, -83, -33,
    -267, -52, -40, -86, -84, -57, -101, -89,
    122, 14, 64, -17, -46, 41, -14, 27,
    -16, 23, 66, 14, -46, 97, 25, 11,
    -26, 17, 30, 36, -29, 83, 5, 19,
    -28, -19, 35, -14, -46, -30, -38, -63,
    -51, -32, -26, -47, -18, -39, -59, -72,
];

pub const PST_QUEEN_EG: [i32; 64] = [
    -89, -129, -125, -271, -144, -108, -97, -39,
    -65, -64, -153, -252, -159, -170, -82, -48,
    -52, -111, -24, -49, -33, 88, -45, -20,
    40, 26, 92, 135, 76, 45, 33, 61,
    16, 52, 84, 184, 157, 129, 86, 144,
    -1, 12, 98, 124, 96, 118, 5, 63,
    35, 51, 25, 142, 134, 119, 29, 74,
    -36, -7, 29, 126, 99, 9, -10, -30,
];

pub const PST_KING_EG: [i32; 64] = [
    -75, -2, -37, -105, -38, -30, -12, -22,
    -20, -21, -96, -75, -55, -17, -21, -46,
    -147, -3, -48, -63, -47, -51, -27, -56,
    -27, -27, 8, 37, -19, 14, -11, 21,
    30, 73, 64, -8, 12, 28, 70, 0,
    30, 18, 19, -9, 12, 47, 61, 93,
    20, 138, 25, 60, 21, 58, 162, 24,
    1, 119, 66, -15, 2, 78, 89, -71,
];

/// All tunable evaluation parameters.
pub struct EvalParams {
    /// Middlegame material (P, N, B, R, Q).
    pub material_mg: [i32; 5],
    /// Endgame material (P, N, B, R, Q).
    pub material_eg: [i32; 5],
    /// Middlegame piece-square tables, from White's side.
    pub pst_mg: [[i32; 64]; 6],
    /// Endgame piece-square tables, from White's side.
    pub pst_eg: [[i32; 64]; 6],
    pub doubled_pawn_mg: i32,
    pub doubled_pawn_eg: i32,
    pub isolated_pawn_mg: i32,
    pub isolated_pawn_eg: i32,
    pub doubled_isolated_mg: i32,
    pub doubled_isolated_eg: i32,
    pub backward_pawn_mg: i32,
    pub backward_pawn_eg: i32,
    pub passed_pawn_base_mg: i32,
    pub passed_pawn_base_eg: i32,
    pub passed_pawn_adv_mg: i32,
    pub passed_pawn_adv_eg: i32,
    pub connected_passer_base_mg: i32,
    pub connected_passer_base_eg: i32,
    pub connected_passer_adv_mg: i32,
    pub connected_passer_adv_eg: i32,
    pub rook_behind_passer_mg: i32,
    pub rook_behind_passer_eg: i32,
    pub blocked_passer_mg: i32,
    pub blocked_passer_eg: i32,
    pub king_passer_own_eg: i32,
    pub king_passer_enemy_eg: i32,
    pub connected_passer_sq_mg: i32,
    pub connected_passer_sq_eg: i32,
    pub bishop_pair_base_mg: i32,
    pub bishop_pair_base_eg: i32,
    pub rook_open_file_mg: i32,
    pub rook_open_file_eg: i32,
    pub rook_semi_open_mg: i32,
    pub rook_semi_open_eg: i32,
    pub rook_seventh_mg: i32,
    pub rook_seventh_eg: i32,
    pub doubled_rook_file_mg: i32,
    pub doubled_rook_file_eg: i32,
    pub doubled_rook_7th_mg: i32,
    pub doubled_rook_7th_eg: i32,
    pub trapped_bishop_mg: i32,
    pub trapped_bishop_eg: i32,
    pub ks_shield_1: i32,
    pub ks_shield_2: i32,
    pub ks_open_file: i32,
    pub ks_semi_open: i32,
    pub ks_center_king: i32,
    pub ks_knight_weight: i32,
    pub ks_bishop_weight: i32,
    pub ks_rook_weight: i32,
    pub ks_queen_weight: i32,
    pub mobility_knight_mg: i32,
    pub mobility_knight_eg: i32,
    pub mobility_bishop_mg: i32,
    pub mobility_bishop_eg: i32,
    pub mobility_rook_mg: i32,
    pub mobility_rook_eg: i32,
    pub mobility_queen_mg: i32,
    pub mobility_queen_eg: i32,
    pub center_pawn_bonus: i32,
    pub center_knight_bonus: i32,
    pub center_bishop_bonus: i32,
    pub pawn_protected_knight: i32,
    pub knight_outpost: i32,
    pub threat_pawn_minor_mg: i32,
    pub threat_pawn_minor_eg: i32,
    pub threat_pawn_rook_mg: i32,
    pub threat_pawn_rook_eg: i32,
    pub threat_minor_rook_mg: i32,
    pub threat_minor_rook_eg: i32,
    pub threat_piece_queen_mg: i32,
    pub threat_piece_queen_eg: i32,
    pub threat_hanging_mg: i32,
    pub threat_hanging_eg: i32,
    pub tempo: i32,
    pub bad_bishop_mg: i32,
    pub bad_bishop_eg: i32,
    pub knight_closed_bonus: i32,
    pub bishop_open_bonus: i32,
    pub pawn_islands_mg: i32,
    pub pawn_islands_eg: i32,
    pub ocb_scale_factor: i32,
    pub imbalance_exchange_mg: i32,
    pub imbalance_exchange_eg: i32,
    pub imbalance_rook_pair_mg: i32,
    pub imbalance_rook_pair_eg: i32,
    pub imbalance_knight_pair_eg: i32,
    pub imbalance_queen_vs_minors_mg: i32,
    pub imbalance_queen_vs_minors_eg: i32,
}

/// Number of scalar params (after material and PSTs).
pub const NUM_SCALAR_PARAMS: usize = 85;

impl EvalParams {
    /// The scalar at a position of the list of scalars.
    pub open spec fn scalar(self, i: int) -> i32 {
        if i == 0 {
            self.doubled_pawn_mg
        } else if i == 1 {
            self.doubled_pawn_eg
        } else if i == 2 {
            self.isolated_pawn_mg
        } else if i == 3 {
            self.isolated_pawn_eg
        } else if i == 4 {
            self.doubled_isolated_mg
        } else if i == 5 {
            self.doubled_isolated_eg
        } else if i == 6 {
            self.backward_pawn_mg
        } else if i == 7 {
            self.backward_pawn_eg
        } else if i == 8 {
            self.passed_pawn_base_mg
        } else if i == 9 {
            self.passed_pawn_base_eg
        } else if i == 10 {
            self.passed_pawn_adv_mg
        } else if i == 11 {
            self.passed_pawn_adv_eg
        } else if i == 12 {
            self.connected_passer_base_mg
        } else if i == 13 {
            self.connected_passer_base_eg
        } else if i == 14 {
            self.connected_passer_adv_mg
        } else if i == 15 {
            self.connected_passer_adv_eg
        } else if i == 16 {
            self.rook_behind_passer_mg
        } else if i == 17 {
            self.rook_behind_passer_eg
        } else if i == 18 {
            self.blocked_passer_mg
        } else if i == 19 {
            self.blocked_passer_eg
        } else if i == 20 {
            self.bishop_pair_base_mg
        } else if i == 21 {
            self.bishop_pair_base_eg
        } else if i == 22 {
            self.rook_open_file_mg
        } else if i == 23 {
            self.rook_open_file_eg
        } else if i == 24 {
            self.rook_semi_open_mg
        } else if i == 25 {
            self.rook_semi_open_eg
        } else if i == 26 {
            self.rook_seventh_mg
        } else if i == 27 {
            self.rook_seventh_eg
        } else if i == 28 {
            self.ks_shield_1
        } else if i == 29 {
            self.ks_shield_2
        } else if i == 30 {
            self.ks_open_file
        } else if i == 31 {
            self.ks_semi_open
        } else if i == 32 {
            self.ks_center_king
        } else if i == 33 {
            self.ks_knight_weight
        } else if i == 34 {
            self.ks_bishop_weight
        } else if i == 35 {
            self.ks_rook_weight
        } else if i == 36 {
            self.ks_queen_weight
        } else if i == 37 {
            self.mobility_knight_mg
        } else if i == 38 {
            self.mobility_knight_eg
        } else if i == 39 {
            self.mobility_bishop_mg
        } else if i == 40 {
            self.mobility_bishop_eg
        } else if i == 41 {
            self.mobility_rook_mg
        } else if i == 42 {
            self.mobility_rook_eg
        } else if i == 43 {
            self.mobility_queen_mg
        } else if i == 44 {
            self.mobility_queen_eg
        } else if i == 45 {
            self.center_pawn_bonus
        } else if i == 46 {
            self.center_knight_bonus
        } else if i == 47 {
            self.center_bishop_bonus
        } else if i == 48 {
            self.pawn_protected_knight
        } else if i == 49 {
            self.knight_outpost
        } else if i == 50 {
            self.threat_pawn_minor_mg
        } else if i == 51 {
            self.threat_pawn_minor_eg
        } else if i == 52 {
            self.threat_pawn_rook_mg
        } else if i == 53 {
            self.threat_pawn_rook_eg
        } else if i == 54 {
            self.threat_minor_rook_mg
        } else if i == 55 {
            self.threat_minor_rook_eg
        } else if i == 56 {
            self.threat_piece_queen_mg
        } else if i == 57 {
            self.threat_piece_queen_eg
        } else if i == 58 {
            self.threat_hanging_mg
        } else if i == 59 {
            self.threat_hanging_eg
        } else if i == 60 {
            self.tempo
        } else if i == 61 {
            self.bad_bishop_mg
        } else if i == 62 {
            self.bad_bishop_eg
        } else if i == 63 {
            self.knight_closed_bonus
        } else if i == 64 {
            self.bishop_open_bonus
        } else if i == 65 {
            self.pawn_islands_mg
        } else if i == 66 {
            self.pawn_islands_eg
        } else if i == 67 {
            self.ocb_scale_factor
        } else if i == 68 {
            self.king_passer_own_eg
        } else if i == 69 {
            self.king_passer_enemy_eg
        } else if i == 70 {
            self.connected_passer_sq_mg
        } else if i == 71 {
            self.connected_passer_sq_eg
        } else if i == 72 {
            self.imbalance_exchange_mg
        } else if i == 73 {
            self.imbalance_exchange_eg
        } else if i == 74 {
            self.imbalance_rook_pair_mg
        } else if i == 75 {
            self.imbalance_rook_pair_eg
        } else if i == 76 {
            self.imbalance_knight_pair_eg
        } else if i == 77 {
            self.imbalance_queen_vs_minors_mg
        } else if i == 78 {
            self.imbalance_queen_vs_minors_eg
        } else if i == 79 {
            self.doubled_rook_file_mg
        } else if i == 80 {
            self.doubled_rook_file_eg
        } else if i == 81 {
            self.doubled_rook_7th_mg
        } else if i == 82 {
            self.doubled_rook_7th_eg
        } else if i == 83 {
            self.trapped_bishop_mg
        } else {
            self.trapped_bishop_eg
        }
    }

    /// The parameter at an index: material, then piece-square tables, then
    /// scalars.
    pub open spec fn param(self, idx: int) -> i32 {
        if idx < 5 {
            self.material_mg@[idx]
        } else if idx < 10 {
            self.material_eg@[idx - 5]
        } else if idx < 394 {
            self.pst_mg@[(idx - 10) / 64]@[(idx - 10) % 64]
        } else if idx < 778 {
            self.pst_eg@[(idx - 394) / 64]@[(idx - 394) % 64]
        } else {
            self.scalar(idx - 778)
        }
    }

    /// Parameters small enough for every sum of an evaluation to fit in 32 bits:
    /// material and table values up to three thousand, scalars up to a thousand.
    ///
    /// The mix of the totals is what needs this. With pieces of a kind on all 64
    /// squares the phase falls to -11447, so that the mix is up to 92 times as
    /// large as the totals. These may then reach some 23 million, and with these
    /// limits they reach 20 million.
    pub open spec fn tame(self) -> bool {
        &&& forall|k: int| 0 <= k < 5 ==> -3000 <= #[trigger] self.material_mg@[k] <= 3000
        &&& forall|k: int| 0 <= k < 5 ==> -3000 <= #[trigger] self.material_eg@[k] <= 3000
        &&& forall|k: int, s: int| 0 <= k < 6 && 0 <= s < 64 ==> -3000 <= #[trigger] self.pst_mg@[k]@[s] <= 3000
        &&& forall|k: int, s: int| 0 <= k < 6 && 0 <= s < 64 ==> -3000 <= #[trigger] self.pst_eg@[k]@[s] <= 3000
        &&& -1000 <= self.doubled_pawn_mg <= 1000
        &&& -1000 <= self.doubled_pawn_eg <= 1000
        &&& -1000 <= self.isolated_pawn_mg <= 1000
        &&& -1000 <= self.isolated_pawn_eg <= 1000
        &&& -1000 <= self.doubled_isolated_mg <= 1000
        &&& -1000 <= self.doubled_isolated_eg <= 1000
        &&& -1000 <= self.backward_pawn_mg <= 1000
        &&& -1000 <= self.backward_pawn_eg <= 1000
        &&& -1000 <= self.passed_pawn_base_mg <= 1000
        &&& -1000 <= self.passed_pawn_base_eg <= 1000
        &&& -1000 <= self.passed_pawn_adv_mg <= 1000
        &&& -1000 <= self.passed_pawn_adv_eg <= 1000
        &&& -1000 <= self.connected_passer_base_mg <= 1000
        &&& -1000 <= self.connected_passer_base_eg <= 1000
        &&& -1000 <= self.connected_passer_adv_mg <= 1000
        &&& -1000 <= self.connected_passer_adv_eg <= 1000
        &&& -1000 <= self.rook_behind_passer_mg <= 1000
        &&& -1000 <= self.rook_behind_passer_eg <= 1000
        &&& -1000 <= self.blocked_passer_mg <= 1000
        &&& -1000 <= self.blocked_passer_eg <= 1000
        &&& -1000 <= self.king_passer_own_eg <= 1000
        &&& -1000 <= self.king_passer_enemy_eg <= 1000
        &&& -1000 <= self.connected_passer_sq_mg <= 1000
        &&& -1000 <= self.connected_passer_sq_eg <= 1000
        &&& -1000 <= self.bishop_pair_base_mg <= 1000
        &&& -1000 <= self.bishop_pair_base_eg <= 1000
        &&& -1000 <= self.rook_open_file_mg <= 1000
        &&& -1000 <= self.rook_open_file_eg <= 1000
        &&& -1000 <= self.rook_semi_open_mg <= 1000
        &&& -1000 <= self.rook_semi_open_eg <= 1000
        &&& -1000 <= self.rook_seventh_mg <= 1000
        &&& -1000 <= self.rook_seventh_eg <= 1000
        &&& -1000 <= self.doubled_rook_file_mg <= 1000
        &&& -1000 <= self.doubled_rook_file_eg <= 1000
        &&& -1000 <= self.doubled_rook_7th_mg <= 1000
        &&& -1000 <= self.doubled_rook_7th_eg <= 1000
        &&& -1000 <= self.trapped_bishop_mg <= 1000
        &&& -1000 <= self.trapped_bishop_eg <= 1000
        &&& -1000 <= self.ks_shield_1 <= 1000
        &&& -1000 <= self.ks_shield_2 <= 1000
        &&& -1000 <= self.ks_open_file <= 1000
        &&& -1000 <= self.ks_semi_open <= 1000
        &&& -1000 <= self.ks_center_king <= 1000
        &&& -1000 <= self.ks_knight_weight <= 1000
        &&& -1000 <= self.ks_bishop_weight <= 1000
        &&& -1000 <= self.ks_rook_weight <= 1000
        &&& -1000 <= self.ks_queen_weight <= 1000
        &&& -1000 <= self.mobility_knight_mg <= 1000
        &&& -1000 <= self.mobility_knight_eg <= 1000
        &&& -1000 <= self.mobility_bishop_mg <= 1000
        &&& -1000 <= self.mobility_bishop_eg <= 1000
        &&& -1000 <= self.mobility_rook_mg <= 1000
        &&& -1000 <= self.mobility_rook_eg <= 1000
        &&& -1000 <= self.mobility_queen_mg <= 1000
        &&& -1000 <= self.mobility_queen_eg <= 1000
        &&& -1000 <= self.center_pawn_bonus <= 1000
        &&& -1000 <= self.center_knight_bonus <= 1000
        &&& -1000 <= self.center_bishop_bonus <= 1000
        &&& -1000 <= self.pawn_protected_knight <= 1000
        &&& -1000 <= self.knight_outpost <= 1000
        &&& -1000 <= self.threat_pawn_minor_mg <= 1000
        &&& -1000 <= self.threat_pawn_minor_eg <= 1000
        &&& -1000 <= self.threat_pawn_rook_mg <= 1000
        &&& -1000 <= self.threat_pawn_rook_eg <= 1000
        &&& -1000 <= self.threat_minor_rook_mg <= 1000
        &&& -1000 <= self.threat_minor_rook_eg <= 1000
        &&& -1000 <= self.threat_piece_queen_mg <= 1000
        &&& -1000 <= self.threat_piece_queen_eg <= 1000
        &&& -1000 <= self.threat_hanging_mg <= 1000
        &&& -1000 <= self.threat_hanging_eg <= 1000
        &&& -1000 <= self.tempo <= 1000
        &&& -1000 <= self.bad_bishop_mg <= 1000
        &&& -1000 <= self.bad_bishop_eg <= 1000
        &&& -1000 <= self.knight_closed_bonus <= 1000
        &&& -1000 <= self.bishop_open_bonus <= 1000
        &&& -1000 <= self.pawn_islands_mg <= 1000
        &&& -1000 <= self.pawn_islands_eg <= 1000
        &&& -1000 <= self.ocb_scale_factor <= 1000
        &&& -1000 <= self.imbalance_exchange_mg <= 1000
        &&& -1000 <= self.imbalance_exchange_eg <= 1000
        &&& -1000 <= self.imbalance_rook_pair_mg <= 1000
        &&& -1000 <= self.imbalance_rook_pair_eg <= 1000
        &&& -1000 <= self.imbalance_knight_pair_eg <= 1000
        &&& -1000 <= self.imbalance_queen_vs_minors_mg <= 1000
        &&& -1000 <= self.imbalance_queen_vs_minors_eg <= 1000
    }

    /// These are the default parameters.
    pub open spec fn is_default(self) -> bool {
        &&& self.material_mg@ == seq![82i32, 337, 365, 477, 1025]
        &&& self.material_eg@ == seq![94i32, 281, 297, 512, 936]
        &&& self.pst_mg@[0] == PST_PAWN_MG
        &&& self.pst_mg@[1] == PST_KNIGHT_MG
        &&& self.pst_mg@[2] == PST_BISHOP_MG
        &&& self.pst_mg@[3] == PST_ROOK_MG
        &&& self.pst_mg@[4] == PST_QUEEN_MG
        &&& self.pst_mg@[5] == PST_KING_MG
        &&& self.pst_eg@[0] == PST_PAWN_EG
        &&& self.pst_eg@[1] == PST_KNIGHT_EG
        &&& self.pst_eg@[2] == PST_BISHOP_EG
        &&& self.pst_eg@[3] == PST_ROOK_EG
        &&& self.pst_eg@[4] == PST_QUEEN_EG
        &&& self.pst_eg@[5] == PST_KING_EG
        &&& self.doubled_pawn_mg == -4
        &&& self.doubled_pawn_eg == -50
        &&& self.isolated_pawn_mg == -45
        &&& self.isolated_pawn_eg == -50
        &&& self.doubled_isolated_mg == -50
        &&& self.doubled_isolated_eg == -50
        &&& self.backward_pawn_mg == -50
        &&& self.backward_pawn_eg == -17
        &&& self.passed_pawn_base_mg == 22
        &&& self.passed_pawn_base_eg == 3
        &&& self.passed_pawn_adv_mg == 15
        &&& self.passed_pawn_adv_eg == 1
        &&& self.connected_passer_base_mg == 2
        &&& self.connected_passer_base_eg == 2
        &&& self.connected_passer_adv_mg == 1
        &&& self.connected_passer_adv_eg == 1
        &&& self.rook_behind_passer_mg == 50
        &&& self.rook_behind_passer_eg == 100
        &&& self.blocked_passer_mg == -2
        &&& self.blocked_passer_eg == -35
        &&& self.king_passer_own_eg == 1
        &&& self.king_passer_enemy_eg == 40
        &&& self.connected_passer_sq_mg == 0
        &&& self.connected_passer_sq_eg == 1
        &&& self.bishop_pair_base_mg == 36
        &&& self.bishop_pair_base_eg == 60
        &&& self.rook_open_file_mg == 50
        &&& self.rook_open_file_eg == 45
        &&& self.rook_semi_open_mg == 30
        &&& self.rook_semi_open_eg == 3
        &&& self.rook_seventh_mg == 60
        &&& self.rook_seventh_eg == 7
        &&& self.doubled_rook_file_mg == 93
        &&& self.doubled_rook_file_eg == 31
        &&& self.doubled_rook_7th_mg == 78
        &&& self.doubled_rook_7th_eg == 147
        &&& self.trapped_bishop_mg == -68
        &&& self.trapped_bishop_eg == -67
        &&& self.ks_shield_1 == 30
        &&& self.ks_shield_2 == 30
        &&& self.ks_open_file == -60
        &&& self.ks_semi_open == -60
        &&& self.ks_center_king == -5
        &&& self.ks_knight_weight == 161
        &&& self.ks_bishop_weight == 170
        &&& self.ks_rook_weight == 200
        &&& self.ks_queen_weight == 151
        &&& self.mobility_knight_mg == 3
        &&& self.mobility_knight_eg == 12
        &&& self.mobility_bishop_mg == 12
        &&& self.mobility_bishop_eg == 12
        &&& self.mobility_rook_mg == 12
        &&& self.mobility_rook_eg == 12
        &&& self.mobility_queen_mg == 2
        &&& self.mobility_queen_eg == 12
        &&& self.center_pawn_bonus == 5
        &&& self.center_knight_bonus == 3
        &&& self.center_bishop_bonus == 18
        &&& self.pawn_protected_knight == 5
        &&& self.knight_outpost == 9
        &&& self.threat_pawn_minor_mg == 48
        &&& self.threat_pawn_minor_eg == 5
        &&& self.threat_pawn_rook_mg == 5
        &&& self.threat_pawn_rook_eg == 68
        &&& self.threat_minor_rook_mg == 93
        &&& self.threat_minor_rook_eg == 120
        &&& self.threat_piece_queen_mg == 120
        &&& self.threat_piece_queen_eg == 88
        &&& self.threat_hanging_mg == 52
        &&& self.threat_hanging_eg == 120
        &&& self.tempo == 20
        &&& self.bad_bishop_mg == -15
        &&& self.bad_bishop_eg == -20
        &&& self.knight_closed_bonus == 2
        &&& self.bishop_open_bonus == 2
        &&& self.pawn_islands_mg == -20
        &&& self.pawn_islands_eg == -3
        &&& self.ocb_scale_factor == 71
        &&& self.imbalance_exchange_mg == 20
        &&& self.imbalance_exchange_eg == 150
        &&& self.imbalance_rook_pair_mg == -40
        &&& self.imbalance_rook_pair_eg == -40
        &&& self.imbalance_knight_pair_eg == -25
        &&& self.imbalance_queen_vs_minors_mg == 27
        &&& self.imbalance_queen_vs_minors_eg == 11
    }

    /// The default parameters.
    pub fn default() -> (r: Self)
        ensures
            r.is_default(),
            r.tame(),
    {
        let r = EvalParams {
            material_mg: [82, 337, 365, 477, 1025],
            material_eg: [94, 281, 297, 512, 936],
            pst_mg: [PST_PAWN_MG, PST_KNIGHT_MG, PST_BISHOP_MG, PST_ROOK_MG, PST_QUEEN_MG, PST_KING_MG],
            pst_eg: [PST_PAWN_EG, PST_KNIGHT_EG, PST_BISHOP_EG, PST_ROOK_EG, PST_QUEEN_EG, PST_KING_EG],
            doubled_pawn_mg: -4,
            doubled_pawn_eg: -50,
            isolated_pawn_mg: -45,
            isolated_pawn_eg: -50,
            doubled_isolated_mg: -50,
            doubled_isolated_eg: -50,
            backward_pawn_mg: -50,
            backward_pawn_eg: -17,
            passed_pawn_base_mg: 22,
            passed_pawn_base_eg: 3,
            passed_pawn_adv_mg: 15,
            passed_pawn_adv_eg: 1,
            connected_passer_base_mg: 2,
            connected_passer_base_eg: 2,
            connected_passer_adv_mg: 1,
            connected_passer_adv_eg: 1,
            rook_behind_passer_mg: 50,
            rook_behind_passer_eg: 100,
            blocked_passer_mg: -2,
            blocked_passer_eg: -35,
            king_passer_own_eg: 1,
            king_passer_enemy_eg: 40,
            connected_passer_sq_mg: 0,
            connected_passer_sq_eg: 1,
            bishop_pair_base_mg: 36,
            bishop_pair_base_eg: 60,
            rook_open_file_mg: 50,
            rook_open_file_eg: 45,
            rook_semi_open_mg: 30,
            rook_semi_open_eg: 3,
            rook_seventh_mg: 60,
            rook_seventh_eg: 7,
            doubled_rook_file_mg: 93,
            doubled_rook_file_eg: 31,
            doubled_rook_7th_mg: 78,
            doubled_rook_7th_eg: 147,
            trapped_bishop_mg: -68,
            trapped_bishop_eg: -67,
            ks_shield_1: 30,
            ks_shield_2: 30,
            ks_open_file: -60,
            ks_semi_open: -60,
            ks_center_king: -5,
            ks_knight_weight: 161,
            ks_bishop_weight: 170,
            ks_rook_weight: 200,
            ks_queen_weight: 151,
            mobility_knight_mg: 3,
            mobility_knight_eg: 12,
            mobility_bishop_mg: 12,
            mobility_bishop_eg: 12,
            mobility_rook_mg: 12,
            mobility_rook_eg: 12,
            mobility_queen_mg: 2,
            mobility_queen_eg: 12,
            center_pawn_bonus: 5,
            center_knight_bonus: 3,
            center_bishop_bonus: 18,
            pawn_protected_knight: 5,
            knight_outpost: 9,
            threat_pawn_minor_mg: 48,
            threat_pawn_minor_eg: 5,
            threat_pawn_rook_mg: 5,
            threat_pawn_rook_eg: 68,
            threat_minor_rook_mg: 93,
            threat_minor_rook_eg: 120,
            threat_piece_queen_mg: 120,
            threat_piece_queen_eg: 88,
            threat_hanging_mg: 52,
            threat_hanging_eg: 120,
            tempo: 20,
            bad_bishop_mg: -15,
            bad_bishop_eg: -20,
            knight_closed_bonus: 2,
            bishop_open_bonus: 2,
            pawn_islands_mg: -20,
            pawn_islands_eg: -3,
            ocb_scale_factor: 71,
            imbalance_exchange_mg: 20,
            imbalance_exchange_eg: 150,
            imbalance_rook_pair_mg: -40,
            imbalance_rook_pair_eg: -40,
            imbalance_knight_pair_eg: -25,
            imbalance_queen_vs_minors_mg: 27,
            imbalance_queen_vs_minors_eg: 11,
        };
        r
    }

    /// Total number of tunable parameters.
    pub fn param_count() -> (r: usize)
        ensures
            r == 863,
    {
        10 + 768 + NUM_SCALAR_PARAMS
    }

    /// Get the value of parameter at index `idx`.
    pub fn get_param(&self, idx: usize) -> (r: i32)
        requires
            idx < 863,
        ensures
            r == self.param(idx as int),
    {
        if idx < 5 {
            self.material_mg[idx]
        } else if idx < 10 {
            self.material_eg[idx - 5]
        } else if idx < 394 {
            let off: usize = idx - 10;
            self.pst_mg[off / 64][off % 64]
        } else if idx < 778 {
            let off: usize = idx - 394;
            self.pst_eg[off / 64][off % 64]
        } else {
            self.get_scalar(idx - 778)
        }
    }

    /// Set the value of parameter at index `idx`.
    pub fn set_param(&mut self, idx: usize, val: i32)
        requires
            idx < 863,
        ensures
            final(self).param(idx as int) == val,
            forall|j: int| 0 <= j < 863 && j != idx ==> #[trigger] final(self).param(j) == old(self).param(j),
    {
        if idx < 5 {
            self.material_mg[idx] = val;
        } else if idx < 10 {
            self.material_eg[idx - 5] = val;
        } else if idx < 394 {
            let off: usize = idx - 10;
            self.pst_mg[off / 64][off % 64] = val;
        } else if idx < 778 {
            let off: usize = idx - 394;
            self.pst_eg[off / 64][off % 64] = val;
        } else {
            self.set_scalar(idx - 778, val);
        }
    }

    fn get_scalar(&self, idx: usize) -> (r: i32)
        requires
            idx < 85,
        ensures
            r == self.scalar(idx as int),
    {
        match idx {
            0 => self.doubled_pawn_mg,
            1 => self.doubled_pawn_eg,
            2 => self.isolated_pawn_mg,
            3 => self.isolated_pawn_eg,
            4 => self.doubled_isolated_mg,
            5 => self.doubled_isolated_eg,
            6 => self.backward_pawn_mg,
            7 => self.backward_pawn_eg,
            8 => self.passed_pawn_base_mg,
            9 => self.passed_pawn_base_eg,
            10 => self.passed_pawn_adv_mg,
            11 => self.passed_pawn_adv_eg,
            12 => self.connected_passer_base_mg,
            13 => self.connected_passer_base_eg,
            14 => self.connected_passer_adv_mg,
            15 => self.connected_passer_adv_eg,
            16 => self.rook_behind_passer_mg,
            17 => self.rook_behind_passer_eg,
            18 => self.blocked_passer_mg,
            19 => self.blocked_passer_eg,
            20 => self.bishop_pair_base_mg,
            21 => self.bishop_pair_base_eg,
            22 => self.rook_open_file_mg,
            23 => self.rook_open_file_eg,
            24 => self.rook_semi_open_mg,
            25 => self.rook_semi_open_eg,
            26 => self.rook_seventh_mg,
            27 => self.rook_seventh_eg,
            28 => self.ks_shield_1,
            29 => self.ks_shield_2,
            30 => self.ks_open_file,
            31 => self.ks_semi_open,
            32 => self.ks_center_king,
            33 => self.ks_knight_weight,
            34 => self.ks_bishop_weight,
            35 => self.ks_rook_weight,
            36 => self.ks_queen_weight,
            37 => self.mobility_knight_mg,
            38 => self.mobility_knight_eg,
            39 => self.mobility_bishop_mg,
            40 => self.mobility_bishop_eg,
            41 => self.mobility_rook_mg,
            42 => self.mobility_rook_eg,
            43 => self.mobility_queen_mg,
            44 => self.mobility_queen_eg,
            45 => self.center_pawn_bonus,
            46 => self.center_knight_bonus,
            47 => self.center_bishop_bonus,
            48 => self.pawn_protected_knight,
            49 => self.knight_outpost,
            50 => self.threat_pawn_minor_mg,
            51 => self.threat_pawn_minor_eg,
            52 => self.threat_pawn_rook_mg,
            53 => self.threat_pawn_rook_eg,
            54 => self.threat_minor_rook_mg,
            55 => self.threat_minor_rook_eg,
            56 => self.threat_piece_queen_mg,
            57 => self.threat_piece_queen_eg,
            58 => self.threat_hanging_mg,
            59 => self.threat_hanging_eg,
            60 => self.tempo,
            61 => self.bad_bishop_mg,
            62 => self.bad_bishop_eg,
            63 => self.knight_closed_bonus,
            64 => self.bishop_open_bonus,
            65 => self.pawn_islands_mg,
            66 => self.pawn_islands_eg,
            67 => self.ocb_scale_factor,
            68 => self.king_passer_own_eg,
            69 => self.king_passer_enemy_eg,
            70 => self.connected_passer_sq_mg,
            71 => self.connected_passer_sq_eg,
            72 => self.imbalance_exchange_mg,
            73 => self.imbalance_exchange_eg,
            74 => self.imbalance_rook_pair_mg,
            75 => self.imbalance_rook_pair_eg,
            76 => self.imbalance_knight_pair_eg,
            77 => self.imbalance_queen_vs_minors_mg,
            78 => self.imbalance_queen_vs_minors_eg,
            79 => self.doubled_rook_file_mg,
            80 => self.doubled_rook_file_eg,
            81 => self.doubled_rook_7th_mg,
            82 => self.doubled_rook_7th_eg,
            83 => self.trapped_bishop_mg,
            _ => self.trapped_bishop_eg,
        }
    }

    fn set_scalar(&mut self, idx: usize, val: i32)
        requires
            idx < 85,
        ensures
            final(self).scalar(idx as int) == val,
            forall|j: int| 0 <= j < 85 && j != idx ==> #[trigger] final(self).scalar(j) == old(self).scalar(j),
            final(self).material_mg == old(self).material_mg,
            final(self).material_eg == old(self).material_eg,
            final(self).pst_mg == old(self).pst_mg,
            final(self).pst_eg == old(self).pst_eg,
    {
        match idx {
            0 => {
                self.doubled_pawn_mg = val;
            },
            1 => {
                self.doubled_pawn_eg = val;
            },
            2 => {
                self.isolated_pawn_mg = val;
            },
            3 => {
                self.isolated_pawn_eg = val;
            },
            4 => {
                self.doubled_isolated_mg = val;
            },
            5 => {
                self.doubled_isolated_eg = val;
            },
            6 => {
                self.backward_pawn_mg = val;
            },
            7 => {
                self.backward_pawn_eg = val;
            },
            8 => {
                self.passed_pawn_base_mg = val;
            },
            9 => {
                self.passed_pawn_base_eg = val;
            },
            10 => {
                self.passed_pawn_adv_mg = val;
            },
            11 => {
                self.passed_pawn_adv_eg = val;
            },
            12 => {
                self.connected_passer_base_mg = val;
            },
            13 => {
                self.connected_passer_base_eg = val;
            },
            14 => {
                self.connected_passer_adv_mg = val;
            },
            15 => {
                self.connected_passer_adv_eg = val;
            },
            16 => {
                self.rook_behind_passer_mg = val;
            },
            17 => {
                self.rook_behind_passer_eg = val;
            },
            18 => {
                self.blocked_passer_mg = val;
            },
            19 => {
                self.blocked_passer_eg = val;
            },
            20 => {
                self.bishop_pair_base_mg = val;
            },
            21 => {
                self.bishop_pair_base_eg = val;
            },
            22 => {
                self.rook_open_file_mg = val;
            },
            23 => {
                self.rook_open_file_eg = val;
            },
            24 => {
                self.rook_semi_open_mg = val;
            },
            25 => {
                self.rook_semi_open_eg = val;
            },
            26 => {
                self.rook_seventh_mg = val;
            },
            27 => {
                self.rook_seventh_eg = val;
            },
            28 => {
                self.ks_shield_1 = val;
            },
            29 => {
                self.ks_shield_2 = val;
            },
            30 => {
                self.ks_open_file = val;
            },
            31 => {
                self.ks_semi_open = val;
            },
            32 => {
                self.ks_center_king = val;
            },
            33 => {
                self.ks_knight_weight = val;
            },
            34 => {
                self.ks_bishop_weight = val;
            },
            35 => {
                self.ks_rook_weight = val;
            },
            36 => {
                self.ks_queen_weight = val;
            },
            37 => {
                self.mobility_knight_mg = val;
            },
            38 => {
                self.mobility_knight_eg = val;
            },
            39 => {
                self.mobility_bishop_mg = val;
            },
            40 => {
                self.mobility_bishop_eg = val;
            },
            41 => {
                self.mobility_rook_mg = val;
            },
            42 => {
                self.mobility_rook_eg = val;
            },
            43 => {
                self.mobility_queen_mg = val;
            },
            44 => {
                self.mobility_queen_eg = val;
            },
            45 => {
                self.center_pawn_bonus = val;
            },
            46 => {
                self.center_knight_bonus = val;
            },
            47 => {
                self.center_bishop_bonus = val;
            },
            48 => {
                self.pawn_protected_knight = val;
            },
            49 => {
                self.knight_outpost = val;
            },
            50 => {
                self.threat_pawn_minor_mg = val;
            },
            51 => {
                self.threat_pawn_minor_eg = val;
            },
            52 => {
                self.threat_pawn_rook_mg = val;
            },
            53 => {
                self.threat_pawn_rook_eg = val;
            },
            54 => {
                self.threat_minor_rook_mg = val;
            },
            55 => {
                self.threat_minor_rook_eg = val;
            },
            56 => {
                self.threat_piece_queen_mg = val;
            },
            57 => {
                self.threat_piece_queen_eg = val;
            },
            58 => {
                self.threat_hanging_mg = val;
            },
            59 => {
                self.threat_hanging_eg = val;
            },
            60 => {
                self.tempo = val;
            },
            61 => {
                self.bad_bishop_mg = val;
            },
            62 => {
                self.bad_bishop_eg = val;
            },
            63 => {
                self.knight_closed_bonus = val;
            },
            64 => {
                self.bishop_open_bonus = val;
            },
            65 => {
                self.pawn_islands_mg = val;
            },
            66 => {
                self.pawn_islands_eg = val;
            },
            67 => {
                self.ocb_scale_factor = val;
            },
            68 => {
                self.king_passer_own_eg = val;
            },
            69 => {
                self.king_passer_enemy_eg = val;
            },
            70 => {
                self.connected_passer_sq_mg = val;
            },
            71 => {
                self.connected_passer_sq_eg = val;
            },
            72 => {
                self.imbalance_exchange_mg = val;
            },
            73 => {
                self.imbalance_exchange_eg = val;
            },
            74 => {
                self.imbalance_rook_pair_mg = val;
            },
            75 => {
                self.imbalance_rook_pair_eg = val;
            },
            76 => {
                self.imbalance_knight_pair_eg = val;
            },
            77 => {
                self.imbalance_queen_vs_minors_mg = val;
            },
            78 => {
                self.imbalance_queen_vs_minors_eg = val;
            },
            79 => {
                self.doubled_rook_file_mg = val;
            },
            80 => {
                self.doubled_rook_file_eg = val;
            },
            81 => {
                self.doubled_rook_7th_mg = val;
            },
            82 => {
                self.doubled_rook_7th_eg = val;
            },
            83 => {
                self.trapped_bishop_mg = val;
            },
            _ => {
                self.trapped_bishop_eg = val;
            },
        }
    }

    /// The name of a scalar.
    pub open spec fn scalar_text(i: int) -> Seq<char> {
        if i == 0 {
            "doubled_pawn_mg"@
        } else if i == 1 {
            "doubled_pawn_eg"@
        } else if i == 2 {
            "isolated_pawn_mg"@
        } else if i == 3 {
            "isolated_pawn_eg"@
        } else if i == 4 {
            "doubled_isolated_mg"@
        } else if i == 5 {
            "doubled_isolated_eg"@
        } else if i == 6 {
            "backward_pawn_mg"@
        } else if i == 7 {
            "backward_pawn_eg"@
        } else if i == 8 {
            "passed_pawn_base_mg"@
        } else if i == 9 {
            "passed_pawn_base_eg"@
        } else if i == 10 {
            "passed_pawn_adv_mg"@
        } else if i == 11 {
            "passed_pawn_adv_eg"@
        } else if i == 12 {
            "connected_passer_base_mg"@
        } else if i == 13 {
            "connected_passer_base_eg"@
        } else if i == 14 {
            "connected_passer_adv_mg"@
        } else if i == 15 {
            "connected_passer_adv_eg"@
        } else if i == 16 {
            "rook_behind_passer_mg"@
        } else if i == 17 {
            "rook_behind_passer_eg"@
        } else if i == 18 {
            "blocked_passer_mg"@
        } else if i == 19 {
            "blocked_passer_eg"@
        } else if i == 20 {
            "bishop_pair_base_mg"@
        } else if i == 21 {
            "bishop_pair_base_eg"@
        } else if i == 22 {
            "rook_open_file_mg"@
        } else if i == 23 {
            "rook_open_file_eg"@
        } else if i == 24 {
            "rook_semi_open_mg"@
        } else if i == 25 {
            "rook_semi_open_eg"@
        } else if i == 26 {
            "rook_seventh_mg"@
        } else if i == 27 {
            "rook_seventh_eg"@
        } else if i == 28 {
            "ks_shield_1"@
        } else if i == 29 {
            "ks_shield_2"@
        } else if i == 30 {
            "ks_open_file"@
        } else if i == 31 {
            "ks_semi_open"@
        } else if i == 32 {
            "ks_center_king"@
        } else if i == 33 {
            "ks_knight_weight"@
        } else if i == 34 {
            "ks_bishop_weight"@
        } else if i == 35 {
            "ks_rook_weight"@
        } else if i == 36 {
            "ks_queen_weight"@
        } else if i == 37 {
            "mobility_knight_mg"@
        } else if i == 38 {
            "mobility_knight_eg"@
        } else if i == 39 {
            "mobility_bishop_mg"@
        } else if i == 40 {
            "mobility_bishop_eg"@
        } else if i == 41 {
            "mobility_rook_mg"@
        } else if i == 42 {
            "mobility_rook_eg"@
        } else if i == 43 {
            "mobility_queen_mg"@
        } else if i == 44 {
            "mobility_queen_eg"@
        } else if i == 45 {
            "center_pawn_bonus"@
        } else if i == 46 {
            "center_knight_bonus"@
        } else if i == 47 {
            "center_bishop_bonus"@
        } else if i == 48 {
            "pawn_protected_knight"@
        } else if i == 49 {
            "knight_outpost"@
        } else if i == 50 {
            "threat_pawn_minor_mg"@
        } else if i == 51 {
            "threat_pawn_minor_eg"@
        } else if i == 52 {
            "threat_pawn_rook_mg"@
        } else if i == 53 {
            "threat_pawn_rook_eg"@
        } else if i == 54 {
            "threat_minor_rook_mg"@
        } else if i == 55 {
            "threat_minor_rook_eg"@
        } else if i == 56 {
            "threat_piece_queen_mg"@
        } else if i == 57 {
            "threat_piece_queen_eg"@
        } else if i == 58 {
            "threat_hanging_mg"@
        } else if i == 59 {
            "threat_hanging_eg"@
        } else if i == 60 {
            "tempo"@
        } else if i == 61 {
            "bad_bishop_mg"@
        } else if i == 62 {
            "bad_bishop_eg"@
        } else if i == 63 {
            "knight_closed_bonus"@
        } else if i == 64 {
            "bishop_open_bonus"@
        } else if i == 65 {
            "pawn_islands_mg"@
        } else if i == 66 {
            "pawn_islands_eg"@
        } else if i == 67 {
            "ocb_scale_factor"@
        } else if i == 68 {
            "king_passer_own_eg"@
        } else if i == 69 {
            "king_passer_enemy_eg"@
        } else if i == 70 {
            "connected_passer_sq_mg"@
        } else if i == 71 {
            "connected_passer_sq_eg"@
        } else if i == 72 {
            "imbalance_exchange_mg"@
        } else if i == 73 {
            "imbalance_exchange_eg"@
        } else if i == 74 {
            "imbalance_rook_pair_mg"@
        } else if i == 75 {
            "imbalance_rook_pair_eg"@
        } else if i == 76 {
            "imbalance_knight_pair_eg"@
        } else if i == 77 {
            "imbalance_queen_vs_minors_mg"@
        } else if i == 78 {
            "imbalance_queen_vs_minors_eg"@
        } else if i == 79 {
            "doubled_rook_file_mg"@
        } else if i == 80 {
            "doubled_rook_file_eg"@
        } else if i == 81 {
            "doubled_rook_7th_mg"@
        } else if i == 82 {
            "doubled_rook_7th_eg"@
        } else if i == 83 {
            "trapped_bishop_mg"@
        } else {
            "trapped_bishop_eg"@
        }
    }

    /// The name of a piece in parameter names.
    pub open spec fn piece_text(k: int) -> Seq<char> {
        if k == 0 {
            "pawn"@
        } else if k == 1 {
            "knight"@
        } else if k == 2 {
            "bishop"@
        } else if k == 3 {
            "rook"@
        } else if k == 4 {
            "queen"@
        } else {
            "king"@
        }
    }

    /// The name of the parameter at an index.
    pub open spec fn name_text(idx: int) -> Seq<char> {
        if idx < 5 {
            "material_mg_"@ + Self::piece_text(idx)
        } else if idx < 10 {
            "material_eg_"@ + Self::piece_text(idx - 5)
        } else if idx < 394 {
            "pst_mg_"@ + Self::piece_text((idx - 10) / 64) + "_"@ + decimal(((idx - 10) % 64) as nat)
        } else if idx < 778 {
            "pst_eg_"@ + Self::piece_text((idx - 394) / 64) + "_"@ + decimal(((idx - 394) % 64) as nat)
        } else {
            Self::scalar_text(idx - 778)
        }
    }

    /// Human-readable name for parameter at index `idx`.
    pub fn param_name(&self, idx: usize) -> (r: String)
        requires
            idx < 863,
        ensures
            r@ == Self::name_text(idx as int),
    {
        if idx < 5 {
            let mut s = "material_mg_".to_string();
            s.append(Self::piece_name(idx));
            s
        } else if idx < 10 {
            let mut s = "material_eg_".to_string();
            s.append(Self::piece_name(idx - 5));
            s
        } else if idx < 394 {
            let off: usize = idx - 10;
            let mut s = "pst_mg_".to_string();
            s.append(Self::piece_name(off / 64));
            s.append("_");
            push_decimal(&mut s, (off % 64) as u64);
            s
        } else if idx < 778 {
            let off: usize = idx - 394;
            let mut s = "pst_eg_".to_string();
            s.append(Self::piece_name(off / 64));
            s.append("_");
            push_decimal(&mut s, (off % 64) as u64);
            s
        } else {
            Self::scalar_name(idx - 778).to_string()
        }
    }

    fn piece_name(k: usize) -> (r: &'static str)
        requires
            k < 6,
        ensures
            r@ == Self::piece_text(k as int),
    {
        match k {
            0 => "pawn",
            1 => "knight",
            2 => "bishop",
            3 => "rook",
            4 => "queen",
            _ => "king",
        }
    }

    fn scalar_name(idx: usize) -> (r: &'static str)
        requires
            idx < 85,
        ensures
            r@ == Self::scalar_text(idx as int),
    {
        match idx {
            0 => "doubled_pawn_mg",
            1 => "doubled_pawn_eg",
            2 => "isolated_pawn_mg",
            3 => "isolated_pawn_eg",
            4 => "doubled_isolated_mg",
            5 => "doubled_isolated_eg",
            6 => "backward_pawn_mg",
            7 => "backward_pawn_eg",
            8 => "passed_pawn_base_mg",
            9 => "passed_pawn_base_eg",
            10 => "passed_pawn_adv_mg",
            11 => "passed_pawn_adv_eg",
            12 => "connected_passer_base_mg",
            13 => "connected_passer_base_eg",
            14 => "connected_passer_adv_mg",
            15 => "connected_passer_adv_eg",
            16 => "rook_behind_passer_mg",
            17 => "rook_behind_passer_eg",
            18 => "blocked_passer_mg",
            19 => "blocked_passer_eg",
            20 => "bishop_pair_base_mg",
            21 => "bishop_pair_base_eg",
            22 => "rook_open_file_mg",
            23 => "rook_open_file_eg",
            24 => "rook_semi_open_mg",
            25 => "rook_semi_open_eg",
            26 => "rook_seventh_mg",
            27 => "rook_seventh_eg",
            28 => "ks_shield_1",
            29 => "ks_shield_2",
            30 => "ks_open_file",
            31 => "ks_semi_open",
            32 => "ks_center_king",
            33 => "ks_knight_weight",
            34 => "ks_bishop_weight",
            35 => "ks_rook_weight",
            36 => "ks_queen_weight",
            37 => "mobility_knight_mg",
            38 => "mobility_knight_eg",
            39 => "mobility_bishop_mg",
            40 => "mobility_bishop_eg",
            41 => "mobility_rook_mg",
            42 => "mobility_rook_eg",
            43 => "mobility_queen_mg",
            44 => "mobility_queen_eg",
            45 => "center_pawn_bonus",
            46 => "center_knight_bonus",
            47 => "center_bishop_bonus",
            48 => "pawn_protected_knight",
            49 => "knight_outpost",
            50 => "threat_pawn_minor_mg",
            51 => "threat_pawn_minor_eg",
            52 => "threat_pawn_rook_mg",
            53 => "threat_pawn_rook_eg",
            54 => "threat_minor_rook_mg",
            55 => "threat_minor_rook_eg",
            56 => "threat_piece_queen_mg",
            57 => "threat_piece_queen_eg",
            58 => "threat_hanging_mg",
            59 => "threat_hanging_eg",
            60 => "tempo",
            61 => "bad_bishop_mg",
            62 => "bad_bishop_eg",
            63 => "knight_closed_bonus",
            64 => "bishop_open_bonus",
            65 => "pawn_islands_mg",
            66 => "pawn_islands_eg",
            67 => "ocb_scale_factor",
            68 => "king_passer_own_eg",
            69 => "king_passer_enemy_eg",
            70 => "connected_passer_sq_mg",
            71 => "connected_passer_sq_eg",
            72 => "imbalance_exchange_mg",
            73 => "imbalance_exchange_eg",
            74 => "imbalance_rook_pair_mg",
            75 => "imbalance_rook_pair_eg",
            76 => "imbalance_knight_pair_eg",
            77 => "imbalance_queen_vs_minors_mg",
            78 => "imbalance_queen_vs_minors_eg",
            79 => "doubled_rook_file_mg",
            80 => "doubled_rook_file_eg",
            81 => "doubled_rook_7th_mg",
            82 => "doubled_rook_7th_eg",
            83 => "trapped_bishop_mg",
            _ => "trapped_bishop_eg",
        }
    }
}

} // verus!
