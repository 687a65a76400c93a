//! The committed probabilities, row by row.

use vstd::prelude::*;

use crate::proba_tables::{bmodes_proba, coeffs_proba_0, coeffs_update_proba};

verus! {

/// The default probabilities of whole-block luma tokens, by band and context.
pub proof fn default_rows_of_luma()
    ensures
        coeffs_proba_0()[0][0][0]@ =~= seq![128u8, 128, 128, 128, 128, 128, 128, 128, 128, 128, 128],
        coeffs_proba_0()[0][0][1]@ =~= seq![128u8, 128, 128, 128, 128, 128, 128, 128, 128, 128, 128],
        coeffs_proba_0()[0][0][2]@ =~= seq![128u8, 128, 128, 128, 128, 128, 128, 128, 128, 128, 128],
        coeffs_proba_0()[0][1][0]@ =~= seq![253u8, 136, 254, 255, 228, 219, 128, 128, 128, 128, 128],
        coeffs_proba_0()[0][1][1]@ =~= seq![189u8, 129, 242, 255, 227, 213, 255, 219, 128, 128, 128],
        coeffs_proba_0()[0][1][2]@ =~= seq![106u8, 126, 227, 252, 214, 209, 255, 255, 128, 128, 128],
        coeffs_proba_0()[0][2][0]@ =~= seq![1u8, 98, 248, 255, 236, 226, 255, 255, 128, 128, 128],
        coeffs_proba_0()[0][2][1]@ =~= seq![181u8, 133, 238, 254, 221, 234, 255, 154, 128, 128, 128],
        coeffs_proba_0()[0][2][2]@ =~= seq![78u8, 134, 202, 247, 198, 180, 255, 219, 128, 128, 128],
        coeffs_proba_0()[0][3][0]@ =~= seq![1u8, 185, 249, 255, 243, 255, 128, 128, 128, 128, 128],
        coeffs_proba_0()[0][3][1]@ =~= seq![184u8, 150, 247, 255, 236, 224, 128, 128, 128, 128, 128],
        coeffs_proba_0()[0][3][2]@ =~= seq![77u8, 110, 216, 255, 236, 230, 128, 128, 128, 128, 128],
        coeffs_proba_0()[0][4][0]@ =~= seq![1u8, 101, 251, 255, 241, 255, 128, 128, 128, 128, 128],
        coeffs_proba_0()[0][4][1]@ =~= seq![170u8, 139, 241, 252, 236, 209, 255, 255, 128, 128, 128],
        coeffs_proba_0()[0][4][2]@ =~= seq![37u8, 116, 196, 243, 228, 255, 255, 255, 128, 128, 128],
        coeffs_proba_0()[0][5][0]@ =~= seq![1u8, 204, 254, 255, 245, 255, 128, 128, 128, 128, 128],
        coeffs_proba_0()[0][5][1]@ =~= seq![207u8, 160, 250, 255, 238, 128, 128, 128, 128, 128, 128],
        coeffs_proba_0()[0][5][2]@ =~= seq![102u8, 103, 231, 255, 211, 171, 128, 128, 128, 128, 128],
        coeffs_proba_0()[0][6][0]@ =~= seq![1u8, 152, 252, 255, 240, 255, 128, 128, 128, 128, 128],
        coeffs_proba_0()[0][6][1]@ =~= seq![177u8, 135, 243, 255, 234, 225, 128, 128, 128, 128, 128],
        coeffs_proba_0()[0][6][2]@ =~= seq![80u8, 129, 211, 255, 194, 224, 128, 128, 128, 128, 128],
        coeffs_proba_0()[0][7][0]@ =~= seq![1u8, 1, 255, 128, 128, 128, 128, 128, 128, 128, 128],
        coeffs_proba_0()[0][7][1]@ =~= seq![246u8, 1, 255, 128, 128, 128, 128, 128, 128, 128, 128],
        coeffs_proba_0()[0][7][2]@ =~= seq![255u8, 128, 128, 128, 128, 128, 128, 128, 128, 128, 128],
{
    reveal(coeffs_proba_0);
}

/// The default probabilities of second-order tokens, by band and context.
pub proof fn default_rows_of_second_order()
    ensures
        coeffs_proba_0()[1][0][0]@ =~= seq![198u8, 35, 237, 223, 193, 187, 162, 160, 145, 155, 62],
        coeffs_proba_0()[1][0][1]@ =~= seq![131u8, 45, 198, 221, 172, 176, 220, 157, 252, 221, 1],
        coeffs_proba_0()[1][0][2]@ =~= seq![68u8, 47, 146, 208, 149, 167, 221, 162, 255, 223, 128],
        coeffs_proba_0()[1][1][0]@ =~= seq![1u8, 149, 241, 255, 221, 224, 255, 255, 128, 128, 128],
        coeffs_proba_0()[1][1][1]@ =~= seq![184u8, 141, 234, 253, 222, 220, 255, 199, 128, 128, 128],
        coeffs_proba_0()[1][1][2]@ =~= seq![81u8, 99, 181, 242, 176, 190, 249, 202, 255, 255, 128],
        coeffs_proba_0()[1][2][0]@ =~= seq![1u8, 129, 232, 253, 214, 197, 242, 196, 255, 255, 128],
        coeffs_proba_0()[1][2][1]@ =~= seq![99u8, 121, 210, 250, 201, 198, 255, 202, 128, 128, 128],
        coeffs_proba_0()[1][2][2]@ =~= seq![23u8, 91, 163, 242, 170, 187, 247, 210, 255, 255, 128],
        coeffs_proba_0()[1][3][0]@ =~= seq![1u8, 200, 246, 255, 234, 255, 128, 128, 128, 128, 128],
        coeffs_proba_0()[1][3][1]@ =~= seq![109u8, 178, 241, 255, 231, 245, 255, 255, 128, 128, 128],
        coeffs_proba_0()[1][3][2]@ =~= seq![44u8, 130, 201, 253, 205, 192, 255, 255, 128, 128, 128],
        coeffs_proba_0()[1][4][0]@ =~= seq![1u8, 132, 239, 251, 219, 209, 255, 165, 128, 128, 128],
        coeffs_proba_0()[1][4][1]@ =~= seq![94u8, 136, 225, 251, 218, 190, 255, 255, 128, 128, 128],
        coeffs_proba_0()[1][4][2]@ =~= seq![22u8, 100, 174, 245, 186, 161, 255, 199, 128, 128, 128],
        coeffs_proba_0()[1][5][0]@ =~= seq![1u8, 182, 249, 255, 232, 235, 128, 128, 128, 128, 128],
        coeffs_proba_0()[1][5][1]@ =~= seq![124u8, 143, 241, 255, 227, 234, 128, 128, 128, 128, 128],
        coeffs_proba_0()[1][5][2]@ =~= seq![35u8, 77, 181, 251, 193, 211, 255, 205, 128, 128, 128],
        coeffs_proba_0()[1][6][0]@ =~= seq![1u8, 157, 247, 255, 236, 231, 255, 255, 128, 128, 128],
        coeffs_proba_0()[1][6][1]@ =~= seq![121u8, 141, 235, 255, 225, 227, 255, 255, 128, 128, 128],
        coeffs_proba_0()[1][6][2]@ =~= seq![45u8, 99, 188, 251, 195, 217, 255, 224, 128, 128, 128],
        coeffs_proba_0()[1][7][0]@ =~= seq![1u8, 1, 251, 255, 213, 255, 128, 128, 128, 128, 128],
        coeffs_proba_0()[1][7][1]@ =~= seq![203u8, 1, 248, 255, 255, 128, 128, 128, 128, 128, 128],
        coeffs_proba_0()[1][7][2]@ =~= seq![137u8, 1, 177, 255, 224, 255, 128, 128, 128, 128, 128],
{
    reveal(coeffs_proba_0);
}

/// The default probabilities of chroma tokens, by band and context.
pub proof fn default_rows_of_chroma()
    ensures
        coeffs_proba_0()[2][0][0]@ =~= seq![253u8, 9, 248, 251, 207, 208, 255, 192, 128, 128, 128],
        coeffs_proba_0()[2][0][1]@ =~= seq![175u8, 13, 224, 243, 193, 185, 249, 198, 255, 255, 128],
        coeffs_proba_0()[2][0][2]@ =~= seq![73u8, 17, 171, 221, 161, 179, 236, 167, 255, 234, 128],
        coeffs_proba_0()[2][1][0]@ =~= seq![1u8, 95, 247, 253, 212, 183, 255, 255, 128, 128, 128],
        coeffs_proba_0()[2][1][1]@ =~= seq![239u8, 90, 244, 250, 211, 209, 255, 255, 128, 128, 128],
        coeffs_proba_0()[2][1][2]@ =~= seq![155u8, 77, 195, 248, 188, 195, 255, 255, 128, 128, 128],
        coeffs_proba_0()[2][2][0]@ =~= seq![1u8, 24, 239, 251, 218, 219, 255, 205, 128, 128, 128],
        coeffs_proba_0()[2][2][1]@ =~= seq![201u8, 51, 219, 255, 196, 186, 128, 128, 128, 128, 128],
        coeffs_proba_0()[2][2][2]@ =~= seq![69u8, 46, 190, 239, 201, 218, 255, 228, 128, 128, 128],
        coeffs_proba_0()[2][3][0]@ =~= seq![1u8, 191, 251, 255, 255, 128, 128, 128, 128, 128, 128],
        coeffs_proba_0()[2][3][1]@ =~= seq![223u8, 165, 249, 255, 213, 255, 128, 128, 128, 128, 128],
        coeffs_proba_0()[2][3][2]@ =~= seq![141u8, 124, 248, 255, 255, 128, 128, 128, 128, 128, 128],
        coeffs_proba_0()[2][4][0]@ =~= seq![1u8, 16, 248, 255, 255, 128, 128, 128, 128, 128, 128],
        coeffs_proba_0()[2][4][1]@ =~= seq![190u8, 36, 230, 255, 236, 255, 128, 128, 128, 128, 128],
        coeffs_proba_0()[2][4][2]@ =~= seq![149u8, 1, 255, 128, 128, 128, 128, 128, 128, 128, 128],
        coeffs_proba_0()[2][5][0]@ =~= seq![1u8, 226, 255, 128, 128, 128, 128, 128, 128, 128, 128],
        coeffs_proba_0()[2][5][1]@ =~= seq![247u8, 192, 255, 128, 128, 128, 128, 128, 128, 128, 128],
        coeffs_proba_0()[2][5][2]@ =~= seq![240u8, 128, 255, 128, 128, 128, 128, 128, 128, 128, 128],
        coeffs_proba_0()[2][6][0]@ =~= seq![1u8, 134, 252, 255, 255, 128, 128, 128, 128, 128, 128],
        coeffs_proba_0()[2][6][1]@ =~= seq![213u8, 62, 250, 255, 255, 128, 128, 128, 128, 128, 128],
        coeffs_proba_0()[2][6][2]@ =~= seq![55u8, 93, 255, 128, 128, 128, 128, 128, 128, 128, 128],
        coeffs_proba_0()[2][7][0]@ =~= seq![128u8, 128, 128, 128, 128, 128, 128, 128, 128, 128, 128],
        coeffs_proba_0()[2][7][1]@ =~= seq![128u8, 128, 128, 128, 128, 128, 128, 128, 128, 128, 128],
        coeffs_proba_0()[2][7][2]@ =~= seq![128u8, 128, 128, 128, 128, 128, 128, 128, 128, 128, 128],
{
    reveal(coeffs_proba_0);
}

/// The default probabilities of 4x4 luma tokens, by band and context.
pub proof fn default_rows_of_small_luma()
    ensures
        coeffs_proba_0()[3][0][0]@ =~= seq![202u8, 24, 213, 235, 186, 191, 220, 160, 240, 175, 255],
        coeffs_proba_0()[3][0][1]@ =~= seq![126u8, 38, 182, 232, 169, 184, 228, 174, 255, 187, 128],
        coeffs_proba_0()[3][0][2]@ =~= seq![61u8, 46, 138, 219, 151, 178, 240, 170, 255, 216, 128],
        coeffs_proba_0()[3][1][0]@ =~= seq![1u8, 112, 230, 250, 199, 191, 247, 159, 255, 255, 128],
        coeffs_proba_0()[3][1][1]@ =~= seq![166u8, 109, 228, 252, 211, 215, 255, 174, 128, 128, 128],
        coeffs_proba_0()[3][1][2]@ =~= seq![39u8, 77, 162, 232, 172, 180, 245, 178, 255, 255, 128],
        coeffs_proba_0()[3][2][0]@ =~= seq![1u8, 52, 220, 246, 198, 199, 249, 220, 255, 255, 128],
        coeffs_proba_0()[3][2][1]@ =~= seq![124u8, 74, 191, 243, 183, 193, 250, 221, 255, 255, 128],
        coeffs_proba_0()[3][2][2]@ =~= seq![24u8, 71, 130, 219, 154, 170, 243, 182, 255, 255, 128],
        coeffs_proba_0()[3][3][0]@ =~= seq![1u8, 182, 225, 249, 219, 240, 255, 224, 128, 128, 128],
        coeffs_proba_0()[3][3][1]@ =~= seq![149u8, 150, 226, 252, 216, 205, 255, 171, 128, 128, 128],
        coeffs_proba_0()[3][3][2]@ =~= seq![28u8, 108, 170, 242, 183, 194, 254, 223, 255, 255, 128],
        coeffs_proba_0()[3][4][0]@ =~= seq![1u8, 81, 230, 252, 204, 203, 255, 192, 128, 128, 128],
        coeffs_proba_0()[3][4][1]@ =~= seq![123u8, 102, 209, 247, 188, 196, 255, 233, 128, 128, 128],
        coeffs_proba_0()[3][4][2]@ =~= seq![20u8, 95, 153, 243, 164, 173, 255, 203, 128, 128, 128],
        coeffs_proba_0()[3][5][0]@ =~= seq![1u8, 222, 248, 255, 216, 213, 128, 128, 128, 128, 128],
        coeffs_proba_0()[3][5][1]@ =~= seq![168u8, 175, 246, 252, 235, 205, 255, 255, 128, 128, 128],
        coeffs_proba_0()[3][5][2]@ =~= seq![47u8, 116, 215, 255, 211, 212, 255, 255, 128, 128, 128],
        coeffs_proba_0()[3][6][0]@ =~= seq![1u8, 121, 236, 253, 212, 214, 255, 255, 128, 128, 128],
        coeffs_proba_0()[3][6][1]@ =~= seq![141u8, 84, 213, 252, 201, 202, 255, 219, 128, 128, 128],
        coeffs_proba_0()[3][6][2]@ =~= seq![42u8, 80, 160, 240, 162, 185, 255, 205, 128, 128, 128],
        coeffs_proba_0()[3][7][0]@ =~= seq![1u8, 1, 255, 128, 128, 128, 128, 128, 128, 128, 128],
        coeffs_proba_0()[3][7][1]@ =~= seq![244u8, 1, 255, 128, 128, 128, 128, 128, 128, 128, 128],
        coeffs_proba_0()[3][7][2]@ =~= seq![238u8, 1, 255, 128, 128, 128, 128, 128, 128, 128, 128],
{
    reveal(coeffs_proba_0);
}

/// The update probabilities of whole-block luma tokens, by band and context.
pub proof fn update_rows_of_luma()
    ensures
        coeffs_update_proba()[0][0][0]@ =~= seq![255u8, 255, 255, 255, 255, 255, 255, 255, 255, 255, 255],
        coeffs_update_proba()[0][0][1]@ =~= seq![255u8, 255, 255, 255, 255, 255, 255, 255, 255, 255, 255],
        coeffs_update_proba()[0][0][2]@ =~= seq![255u8, 255, 255, 255, 255, 255, 255, 255, 255, 255, 255],
        coeffs_update_proba()[0][1][0]@ =~= seq![176u8, 246, 255, 255, 255, 255, 255, 255, 255, 255, 255],
        coeffs_update_proba()[0][1][1]@ =~= seq![223u8, 241, 252, 255, 255, 255, 255, 255, 255, 255, 255],
        coeffs_update_proba()[0][1][2]@ =~= seq![249u8, 253, 253, 255, 255, 255, 255, 255, 255, 255, 255],
        coeffs_update_proba()[0][2][0]@ =~= seq![255u8, 244, 252, 255, 255, 255, 255, 255, 255, 255, 255],
        coeffs_update_proba()[0][2][1]@ =~= seq![234u8, 254, 254, 255, 255, 255, 255, 255, 255, 255, 255],
        coeffs_update_proba()[0][2][2]@ =~= seq![253u8, 255, 255, 255, 255, 255, 255, 255, 255, 255, 255],
        coeffs_update_proba()[0][3][0]@ =~= seq![255u8, 246, 254, 255, 255, 255, 255, 255, 255, 255, 255],
        coeffs_update_proba()[0][3][1]@ =~= seq![239u8, 253, 254, 255, 255, 255, 255, 255, 255, 255, 255],
        coeffs_update_proba()[0][3][2]@ =~= seq![254u8, 255, 254, 255, 255, 255, 255, 255, 255, 255, 255],
        coeffs_update_proba()[0][4][0]@ =~= seq![255u8, 248, 254, 255, 255, 255, 255, 255, 255, 255, 255],
        coeffs_update_proba()[0][4][1]@ =~= seq![251u8, 255, 254, 255, 255, 255, 255, 255, 255, 255, 255],
        coeffs_update_proba()[0][4][2]@ =~= seq![255u8, 255, 255, 255, 255, 255, 255, 255, 255, 255, 255],
        coeffs_update_proba()[0][5][0]@ =~= seq![255u8, 253, 254, 255, 255, 255, 255, 255, 255, 255, 255],
        coeffs_update_proba()[0][5][1]@ =~= seq![251u8, 254, 254, 255, 255, 255, 255, 255, 255, 255, 255],
        coeffs_update_proba()[0][5][2]@ =~= seq![254u8, 255, 254, 255, 255, 255, 255, 255, 255, 255, 255],
        coeffs_update_proba()[0][6][0]@ =~= seq![255u8, 254, 253, 255, 254, 255, 255, 255, 255, 255, 255],
        coeffs_update_proba()[0][6][1]@ =~= seq![250u8, 255, 254, 255, 254, 255, 255, 255, 255, 255, 255],
        coeffs_update_proba()[0][6][2]@ =~= seq![254u8, 255, 255, 255, 255, 255, 255, 255, 255, 255, 255],
        coeffs_update_proba()[0][7][0]@ =~= seq![255u8, 255, 255, 255, 255, 255, 255, 255, 255, 255, 255],
        coeffs_update_proba()[0][7][1]@ =~= seq![255u8, 255, 255, 255, 255, 255, 255, 255, 255, 255, 255],
        coeffs_update_proba()[0][7][2]@ =~= seq![255u8, 255, 255, 255, 255, 255, 255, 255, 255, 255, 255],
{
    reveal(coeffs_update_proba);
}

/// The update probabilities of second-order tokens, by band and context.
pub proof fn update_rows_of_second_order()
    ensures
        coeffs_update_proba()[1][0][0]@ =~= seq![217u8, 255, 255, 255, 255, 255, 255, 255, 255, 255, 255],
        coeffs_update_proba()[1][0][1]@ =~= seq![225u8, 252, 241, 253, 255, 255, 254, 255, 255, 255, 255],
        coeffs_update_proba()[1][0][2]@ =~= seq![234u8, 250, 241, 250, 253, 255, 253, 254, 255, 255, 255],
        coeffs_update_proba()[1][1][0]@ =~= seq![255u8, 254, 255, 255, 255, 255, 255, 255, 255, 255, 255],
        coeffs_update_proba()[1][1][1]@ =~= seq![223u8, 254, 254, 255, 255, 255, 255, 255, 255, 255, 255],
        coeffs_update_proba()[1][1][2]@ =~= seq![238u8, 253, 254, 254, 255, 255, 255, 255, 255, 255, 255],
        coeffs_update_proba()[1][2][0]@ =~= seq![255u8, 248, 254, 255, 255, 255, 255, 255, 255, 255, 255],
        coeffs_update_proba()[1][2][1]@ =~= seq![249u8, 254, 255, 255, 255, 255, 255, 255, 255, 255, 255],
        coeffs_update_proba()[1][2][2]@ =~= seq![255u8, 255, 255, 255, 255, 255, 255, 255, 255, 255, 255],
        coeffs_update_proba()[1][3][0]@ =~= seq![255u8, 253, 255, 255, 255, 255, 255, 255, 255, 255, 255],
        coeffs_update_proba()[1][3][1]@ =~= seq![247u8, 254, 255, 255, 255, 255, 255, 255, 255, 255, 255],
        coeffs_update_proba()[1][3][2]@ =~= seq![255u8, 255, 255, 255, 255, 255, 255, 255, 255, 255, 255],
        coeffs_update_proba()[1][4][0]@ =~= seq![255u8, 253, 254, 255, 255, 255, 255, 255, 255, 255, 255],
        coeffs_update_proba()[1][4][1]@ =~= seq![252u8, 255, 255, 255, 255, 255, 255, 255, 255, 255, 255],
        coeffs_update_proba()[1][4][2]@ =~= seq![255u8, 255, 255, 255, 255, 255, 255, 255, 255, 255, 255],
        coeffs_update_proba()[1][5][0]@ =~= seq![255u8, 254, 254, 255, 255, 255, 255, 255, 255, 255, 255],
        coeffs_update_proba()[1][5][1]@ =~= seq![253u8, 255, 255, 255, 255, 255, 255, 255, 255, 255, 255],
        coeffs_update_proba()[1][5][2]@ =~= seq![255u8, 255, 255, 255, 255, 255, 255, 255, 255, 255, 255],
        coeffs_update_proba()[1][6][0]@ =~= seq![255u8, 254, 253, 255, 255, 255, 255, 255, 255, 255, 255],
        coeffs_update_proba()[1][6][1]@ =~= seq![250u8, 255, 255, 255, 255, 255, 255, 255, 255, 255, 255],
        coeffs_update_proba()[1][6][2]@ =~= seq![254u8, 255, 255, 255, 255, 255, 255, 255, 255, 255, 255],
        coeffs_update_proba()[1][7][0]@ =~= seq![255u8, 255, 255, 255, 255, 255, 255, 255, 255, 255, 255],
        coeffs_update_proba()[1][7][1]@ =~= seq![255u8, 255, 255, 255, 255, 255, 255, 255, 255, 255, 255],
        coeffs_update_proba()[1][7][2]@ =~= seq![255u8, 255, 255, 255, 255, 255, 255, 255, 255, 255, 255],
{
    reveal(coeffs_update_proba);
}

/// The update probabilities of chroma tokens, by band and context.
pub proof fn update_rows_of_chroma()
    ensures
        coeffs_update_proba()[2][0][0]@ =~= seq![186u8, 251, 250, 255, 255, 255, 255, 255, 255, 255, 255],
        coeffs_update_proba()[2][0][1]@ =~= seq![234u8, 251, 244, 254, 255, 255, 255, 255, 255, 255, 255],
        coeffs_update_proba()[2][0][2]@ =~= seq![251u8, 251, 243, 253, 254, 255, 254, 255, 255, 255, 255],
        coeffs_update_proba()[2][1][0]@ =~= seq![255u8, 253, 254, 255, 255, 255, 255, 255, 255, 255, 255],
        coeffs_update_proba()[2][1][1]@ =~= seq![236u8, 253, 254, 255, 255, 255, 255, 255, 255, 255, 255],
        coeffs_update_proba()[2][1][2]@ =~= seq![251u8, 253, 253, 254, 254, 255, 255, 255, 255, 255, 255],
        coeffs_update_proba()[2][2][0]@ =~= seq![255u8, 254, 254, 255, 255, 255, 255, 255, 255, 255, 255],
        coeffs_update_proba()[2][2][1]@ =~= seq![254u8, 254, 254, 255, 255, 255, 255, 255, 255, 255, 255],
        coeffs_update_proba()[2][2][2]@ =~= seq![255u8, 255, 255, 255, 255, 255, 255, 255, 255, 255, 255],
        coeffs_update_proba()[2][3][0]@ =~= seq![255u8, 254, 255, 255, 255, 255, 255, 255, 255, 255, 255],
        coeffs_update_proba()[2][3][1]@ =~= seq![254u8, 254, 255, 255, 255, 255, 255, 255, 255, 255, 255],
        coeffs_update_proba()[2][3][2]@ =~= seq![254u8, 255, 255, 255, 255, 255, 255, 255, 255, 255, 255],
        coeffs_update_proba()[2][4][0]@ =~= seq![255u8, 255, 255, 255, 255, 255, 255, 255, 255, 255, 255],
        coeffs_update_proba()[2][4][1]@ =~= seq![254u8, 255, 255, 255, 255, 255, 255, 255, 255, 255, 255],
        coeffs_update_proba()[2][4][2]@ =~= seq![255u8, 255, 255, 255, 255, 255, 255, 255, 255, 255, 255],
        coeffs_update_proba()[2][5][0]@ =~= seq![255u8, 255, 255, 255, 255, 255, 255, 255, 255, 255, 255],
        coeffs_update_proba()[2][5][1]@ =~= seq![255u8, 255, 255, 255, 255, 255, 255, 255, 255, 255, 255],
        coeffs_update_proba()[2][5][2]@ =~= seq![255u8, 255, 255, 255, 255, 255, 255, 255, 255, 255, 255],
        coeffs_update_proba()[2][6][0]@ =~= seq![255u8, 255, 255, 255, 255, 255, 255, 255, 255, 255, 255],
        coeffs_update_proba()[2][6][1]@ =~= seq![255u8, 255, 255, 255, 255, 255, 255, 255, 255, 255, 255],
        coeffs_update_proba()[2][6][2]@ =~= seq![255u8, 255, 255, 255, 255, 255, 255, 255, 255, 255, 255],
        coeffs_update_proba()[2][7][0]@ =~= seq![255u8, 255, 255, 255, 255, 255, 255, 255, 255, 255, 255],
        coeffs_update_proba()[2][7][1]@ =~= seq![255u8, 255, 255, 255, 255, 255, 255, 255, 255, 255, 255],
        coeffs_update_proba()[2][7][2]@ =~= seq![255u8, 255, 255, 255, 255, 255, 255, 255, 255, 255, 255],
{
    reveal(coeffs_update_proba);
}

/// The update probabilities of 4x4 luma tokens, by band and context.
pub proof fn update_rows_of_small_luma()
    ensures
        coeffs_update_proba()[3][0][0]@ =~= seq![248u8, 255, 255, 255, 255, 255, 255, 255, 255, 255, 255],
        coeffs_update_proba()[3][0][1]@ =~= seq![250u8, 254, 252, 254, 255, 255, 255, 255, 255, 255, 255],
        coeffs_update_proba()[3][0][2]@ =~= seq![248u8, 254, 249, 253, 255, 255, 255, 255, 255, 255, 255],
        coeffs_update_proba()[3][1][0]@ =~= seq![255u8, 253, 253, 255, 255, 255, 255, 255, 255, 255, 255],
        coeffs_update_proba()[3][1][1]@ =~= seq![246u8, 253, 253, 255, 255, 255, 255, 255, 255, 255, 255],
        coeffs_update_proba()[3][1][2]@ =~= seq![252u8, 254, 251, 254, 254, 255, 255, 255, 255, 255, 255],
        coeffs_update_proba()[3][2][0]@ =~= seq![255u8, 254, 252, 255, 255, 255, 255, 255, 255, 255, 255],
        coeffs_update_proba()[3][2][1]@ =~= seq![248u8, 254, 253, 255, 255, 255, 255, 255, 255, 255, 255],
        coeffs_update_proba()[3][2][2]@ =~= seq![253u8, 255, 254, 254, 255, 255, 255, 255, 255, 255, 255],
        coeffs_update_proba()[3][3][0]@ =~= seq![255u8, 251, 254, 255, 255, 255, 255, 255, 255, 255, 255],
        coeffs_update_proba()[3][3][1]@ =~= seq![245u8, 251, 254, 255, 255, 255, 255, 255, 255, 255, 255],
        coeffs_update_proba()[3][3][2]@ =~= seq![253u8, 253, 254, 255, 255, 255, 255, 255, 255, 255, 255],
        coeffs_update_proba()[3][4][0]@ =~= seq![255u8, 251, 253, 255, 255, 255, 255, 255, 255, 255, 255],
        coeffs_update_proba()[3][4][1]@ =~= seq![252u8, 253, 254, 255, 255, 255, 255, 255, 255, 255, 255],
        coeffs_update_proba()[3][4][2]@ =~= seq![255u8, 254, 255, 255, 255, 255, 255, 255, 255, 255, 255],
        coeffs_update_proba()[3][5][0]@ =~= seq![255u8, 252, 255, 255, 255, 255, 255, 255, 255, 255, 255],
        coeffs_update_proba()[3][5][1]@ =~= seq![249u8, 255, 254, 255, 255, 255, 255, 255, 255, 255, 255],
        coeffs_update_proba()[3][5][2]@ =~= seq![255u8, 255, 254, 255, 255, 255, 255, 255, 255, 255, 255],
        coeffs_update_proba()[3][6][0]@ =~= seq![255u8, 255, 253, 255, 255, 255, 255, 255, 255, 255, 255],
        coeffs_update_proba()[3][6][1]@ =~= seq![250u8, 255, 255, 255, 255, 255, 255, 255, 255, 255, 255],
        coeffs_update_proba()[3][6][2]@ =~= seq![255u8, 255, 255, 255, 255, 255, 255, 255, 255, 255, 255],
        coeffs_update_proba()[3][7][0]@ =~= seq![255u8, 255, 255, 255, 255, 255, 255, 255, 255, 255, 255],
        coeffs_update_proba()[3][7][1]@ =~= seq![254u8, 255, 255, 255, 255, 255, 255, 255, 255, 255, 255],
        coeffs_update_proba()[3][7][2]@ =~= seq![255u8, 255, 255, 255, 255, 255, 255, 255, 255, 255, 255],
{
    reveal(coeffs_update_proba);
}

/// The 4x4 mode probabilities below mode 0, by the mode to the left.
pub proof fn mode_rows_below_0()
    ensures
        bmodes_proba()[0][0]@ =~= seq![231u8, 120, 48, 89, 115, 113, 120, 152, 112],
        bmodes_proba()[0][1]@ =~= seq![152u8, 179, 64, 126, 170, 118, 46, 70, 95],
        bmodes_proba()[0][2]@ =~= seq![175u8, 69, 143, 80, 85, 82, 72, 155, 103],
        bmodes_proba()[0][3]@ =~= seq![56u8, 58, 10, 171, 218, 189, 17, 13, 152],
        bmodes_proba()[0][4]@ =~= seq![114u8, 26, 17, 163, 44, 195, 21, 10, 173],
        bmodes_proba()[0][5]@ =~= seq![121u8, 24, 80, 195, 26, 62, 44, 64, 85],
        bmodes_proba()[0][6]@ =~= seq![144u8, 71, 10, 38, 171, 213, 144, 34, 26],
        bmodes_proba()[0][7]@ =~= seq![170u8, 46, 55, 19, 136, 160, 33, 206, 71],
        bmodes_proba()[0][8]@ =~= seq![63u8, 20, 8, 114, 114, 208, 12, 9, 226],
        bmodes_proba()[0][9]@ =~= seq![81u8, 40, 11, 96, 182, 84, 29, 16, 36],
{
    reveal(bmodes_proba);
}

/// The 4x4 mode probabilities below mode 1, by the mode to the left.
pub proof fn mode_rows_below_1()
    ensures
        bmodes_proba()[1][0]@ =~= seq![134u8, 183, 89, 137, 98, 101, 106, 165, 148],
        bmodes_proba()[1][1]@ =~= seq![72u8, 187, 100, 130, 157, 111, 32, 75, 80],
        bmodes_proba()[1][2]@ =~= seq![66u8, 102, 167, 99, 74, 62, 40, 234, 128],
        bmodes_proba()[1][3]@ =~= seq![41u8, 53, 9, 178, 241, 141, 26, 8, 107],
        bmodes_proba()[1][4]@ =~= seq![74u8, 43, 26, 146, 73, 166, 49, 23, 157],
        bmodes_proba()[1][5]@ =~= seq![65u8, 38, 105, 160, 51, 52, 31, 115, 128],
        bmodes_proba()[1][6]@ =~= seq![104u8, 79, 12, 27, 217, 255, 87, 17, 7],
        bmodes_proba()[1][7]@ =~= seq![87u8, 68, 71, 44, 114, 51, 15, 186, 23],
        bmodes_proba()[1][8]@ =~= seq![47u8, 41, 14, 110, 182, 183, 21, 17, 194],
        bmodes_proba()[1][9]@ =~= seq![66u8, 45, 25, 102, 197, 189, 23, 18, 22],
{
    reveal(bmodes_proba);
}

/// The 4x4 mode probabilities below mode 2, by the mode to the left.
pub proof fn mode_rows_below_2()
    ensures
        bmodes_proba()[2][0]@ =~= seq![88u8, 88, 147, 150, 42, 46, 45, 196, 205],
        bmodes_proba()[2][1]@ =~= seq![43u8, 97, 183, 117, 85, 38, 35, 179, 61],
        bmodes_proba()[2][2]@ =~= seq![39u8, 53, 200, 87, 26, 21, 43, 232, 171],
        bmodes_proba()[2][3]@ =~= seq![56u8, 34, 51, 104, 114, 102, 29, 93, 77],
        bmodes_proba()[2][4]@ =~= seq![39u8, 28, 85, 171, 58, 165, 90, 98, 64],
        bmodes_proba()[2][5]@ =~= seq![34u8, 22, 116, 206, 23, 34, 43, 166, 73],
        bmodes_proba()[2][6]@ =~= seq![107u8, 54, 32, 26, 51, 1, 81, 43, 31],
        bmodes_proba()[2][7]@ =~= seq![68u8, 25, 106, 22, 64, 171, 36, 225, 114],
        bmodes_proba()[2][8]@ =~= seq![34u8, 19, 21, 102, 132, 188, 16, 76, 124],
        bmodes_proba()[2][9]@ =~= seq![62u8, 18, 78, 95, 85, 57, 50, 48, 51],
{
    reveal(bmodes_proba);
}

/// The 4x4 mode probabilities below mode 3, by the mode to the left.
pub proof fn mode_rows_below_3()
    ensures
        bmodes_proba()[3][0]@ =~= seq![193u8, 101, 35, 159, 215, 111, 89, 46, 111],
        bmodes_proba()[3][1]@ =~= seq![60u8, 148, 31, 172, 219, 228, 21, 18, 111],
        bmodes_proba()[3][2]@ =~= seq![112u8, 113, 77, 85, 179, 255, 38, 120, 114],
        bmodes_proba()[3][3]@ =~= seq![40u8, 42, 1, 196, 245, 209, 10, 25, 109],
        bmodes_proba()[3][4]@ =~= seq![88u8, 43, 29, 140, 166, 213, 37, 43, 154],
        bmodes_proba()[3][5]@ =~= seq![61u8, 63, 30, 155, 67, 45, 68, 1, 209],
        bmodes_proba()[3][6]@ =~= seq![100u8, 80, 8, 43, 154, 1, 51, 26, 71],
        bmodes_proba()[3][7]@ =~= seq![142u8, 78, 78, 16, 255, 128, 34, 197, 171],
        bmodes_proba()[3][8]@ =~= seq![41u8, 40, 5, 102, 211, 183, 4, 1, 221],
        bmodes_proba()[3][9]@ =~= seq![51u8, 50, 17, 168, 209, 192, 23, 25, 82],
{
    reveal(bmodes_proba);
}

/// The 4x4 mode probabilities below mode 4, by the mode to the left.
pub proof fn mode_rows_below_4()
    ensures
        bmodes_proba()[4][0]@ =~= seq![138u8, 31, 36, 171, 27, 166, 38, 44, 229],
        bmodes_proba()[4][1]@ =~= seq![67u8, 87, 58, 169, 82, 115, 26, 59, 179],
        bmodes_proba()[4][2]@ =~= seq![63u8, 59, 90, 180, 59, 166, 93, 73, 154],
        bmodes_proba()[4][3]@ =~= seq![40u8, 40, 21, 116, 143, 209, 34, 39, 175],
        bmodes_proba()[4][4]@ =~= seq![47u8, 15, 16, 183, 34, 223, 49, 45, 183],
        bmodes_proba()[4][5]@ =~= seq![46u8, 17, 33, 183, 6, 98, 15, 32, 183],
        bmodes_proba()[4][6]@ =~= seq![57u8, 46, 22, 24, 128, 1, 54, 17, 37],
        bmodes_proba()[4][7]@ =~= seq![65u8, 32, 73, 115, 28, 128, 23, 128, 205],
        bmodes_proba()[4][8]@ =~= seq![40u8, 3, 9, 115, 51, 192, 18, 6, 223],
        bmodes_proba()[4][9]@ =~= seq![87u8, 37, 9, 115, 59, 77, 64, 21, 47],
{
    reveal(bmodes_proba);
}

/// The 4x4 mode probabilities below mode 5, by the mode to the left.
pub proof fn mode_rows_below_5()
    ensures
        bmodes_proba()[5][0]@ =~= seq![104u8, 55, 44, 218, 9, 54, 53, 130, 226],
        bmodes_proba()[5][1]@ =~= seq![64u8, 90, 70, 205, 40, 41, 23, 26, 57],
        bmodes_proba()[5][2]@ =~= seq![54u8, 57, 112, 184, 5, 41, 38, 166, 213],
        bmodes_proba()[5][3]@ =~= seq![30u8, 34, 26, 133, 152, 116, 10, 32, 134],
        bmodes_proba()[5][4]@ =~= seq![39u8, 19, 53, 221, 26, 114, 32, 73, 255],
        bmodes_proba()[5][5]@ =~= seq![31u8, 9, 65, 234, 2, 15, 1, 118, 73],
        bmodes_proba()[5][6]@ =~= seq![75u8, 32, 12, 51, 192, 255, 160, 43, 51],
        bmodes_proba()[5][7]@ =~= seq![88u8, 31, 35, 67, 102, 85, 55, 186, 85],
        bmodes_proba()[5][8]@ =~= seq![56u8, 21, 23, 111, 59, 205, 45, 37, 192],
        bmodes_proba()[5][9]@ =~= seq![55u8, 38, 70, 124, 73, 102, 1, 34, 98],
{
    reveal(bmodes_proba);
}

/// The 4x4 mode probabilities below mode 6, by the mode to the left.
pub proof fn mode_rows_below_6()
    ensures
        bmodes_proba()[6][0]@ =~= seq![125u8, 98, 42, 88, 104, 85, 117, 175, 82],
        bmodes_proba()[6][1]@ =~= seq![95u8, 84, 53, 89, 128, 100, 113, 101, 45],
        bmodes_proba()[6][2]@ =~= seq![75u8, 79, 123, 47, 51, 128, 81, 171, 1],
        bmodes_proba()[6][3]@ =~= seq![57u8, 17, 5, 71, 102, 57, 53, 41, 49],
        bmodes_proba()[6][4]@ =~= seq![38u8, 33, 13, 121, 57, 73, 26, 1, 85],
        bmodes_proba()[6][5]@ =~= seq![41u8, 10, 67, 138, 77, 110, 90, 47, 114],
        bmodes_proba()[6][6]@ =~= seq![115u8, 21, 2, 10, 102, 255, 166, 23, 6],
        bmodes_proba()[6][7]@ =~= seq![101u8, 29, 16, 10, 85, 128, 101, 196, 26],
        bmodes_proba()[6][8]@ =~= seq![57u8, 18, 10, 102, 102, 213, 34, 20, 43],
        bmodes_proba()[6][9]@ =~= seq![117u8, 20, 15, 36, 163, 128, 68, 1, 26],
{
    reveal(bmodes_proba);
}

/// The 4x4 mode probabilities below mode 7, by the mode to the left.
pub proof fn mode_rows_below_7()
    ensures
        bmodes_proba()[7][0]@ =~= seq![102u8, 61, 71, 37, 34, 53, 31, 243, 192],
        bmodes_proba()[7][1]@ =~= seq![69u8, 60, 71, 38, 73, 119, 28, 222, 37],
        bmodes_proba()[7][2]@ =~= seq![68u8, 45, 128, 34, 1, 47, 11, 245, 171],
        bmodes_proba()[7][3]@ =~= seq![62u8, 17, 19, 70, 146, 85, 55, 62, 70],
        bmodes_proba()[7][4]@ =~= seq![37u8, 43, 37, 154, 100, 163, 85, 160, 1],
        bmodes_proba()[7][5]@ =~= seq![63u8, 9, 92, 136, 28, 64, 32, 201, 85],
        bmodes_proba()[7][6]@ =~= seq![75u8, 15, 9, 9, 64, 255, 184, 119, 16],
        bmodes_proba()[7][7]@ =~= seq![86u8, 6, 28, 5, 64, 255, 25, 248, 1],
        bmodes_proba()[7][8]@ =~= seq![56u8, 8, 17, 132, 137, 255, 55, 116, 128],
        bmodes_proba()[7][9]@ =~= seq![58u8, 15, 20, 82, 135, 57, 26, 121, 40],
{
    reveal(bmodes_proba);
}

/// The 4x4 mode probabilities below mode 8, by the mode to the left.
pub proof fn mode_rows_below_8()
    ensures
        bmodes_proba()[8][0]@ =~= seq![164u8, 50, 31, 137, 154, 133, 25, 35, 218],
        bmodes_proba()[8][1]@ =~= seq![51u8, 103, 44, 131, 131, 123, 31, 6, 158],
        bmodes_proba()[8][2]@ =~= seq![86u8, 40, 64, 135, 148, 224, 45, 183, 128],
        bmodes_proba()[8][3]@ =~= seq![22u8, 26, 17, 131, 240, 154, 14, 1, 209],
        bmodes_proba()[8][4]@ =~= seq![45u8, 16, 21, 91, 64, 222, 7, 1, 197],
        bmodes_proba()[8][5]@ =~= seq![56u8, 21, 39, 155, 60, 138, 23, 102, 213],
        bmodes_proba()[8][6]@ =~= seq![83u8, 12, 13, 54, 192, 255, 68, 47, 28],
        bmodes_proba()[8][7]@ =~= seq![85u8, 26, 85, 85, 128, 128, 32, 146, 171],
        bmodes_proba()[8][8]@ =~= seq![18u8, 11, 7, 63, 144, 171, 4, 4, 246],
        bmodes_proba()[8][9]@ =~= seq![35u8, 27, 10, 146, 174, 171, 12, 26, 128],
{
    reveal(bmodes_proba);
}

/// The 4x4 mode probabilities below mode 9, by the mode to the left.
pub proof fn mode_rows_below_9()
    ensures
        bmodes_proba()[9][0]@ =~= seq![190u8, 80, 35, 99, 180, 80, 126, 54, 45],
        bmodes_proba()[9][1]@ =~= seq![85u8, 126, 47, 87, 176, 51, 41, 20, 32],
        bmodes_proba()[9][2]@ =~= seq![101u8, 75, 128, 139, 118, 146, 116, 128, 85],
        bmodes_proba()[9][3]@ =~= seq![56u8, 41, 15, 176, 236, 85, 37, 9, 62],
        bmodes_proba()[9][4]@ =~= seq![71u8, 30, 17, 119, 118, 255, 17, 18, 138],
        bmodes_proba()[9][5]@ =~= seq![101u8, 38, 60, 138, 55, 70, 43, 26, 142],
        bmodes_proba()[9][6]@ =~= seq![146u8, 36, 19, 30, 171, 255, 97, 27, 20],
        bmodes_proba()[9][7]@ =~= seq![138u8, 45, 61, 62, 219, 1, 81, 188, 64],
        bmodes_proba()[9][8]@ =~= seq![32u8, 41, 20, 117, 151, 142, 20, 21, 163],
        bmodes_proba()[9][9]@ =~= seq![112u8, 19, 12, 61, 195, 128, 48, 4, 24],
{
    reveal(bmodes_proba);
}

} // verus!
