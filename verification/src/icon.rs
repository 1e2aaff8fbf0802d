//! Mapping from the provider's numeric weather-condition code to a symbolic
//! icon tag. The mapping is a fixed table of integer ranges checked in order;
//! a code outside every range maps to the empty string.

use vstd::prelude::*;

verus! {

/// The icon table: the tag for `code` is the one of the first matching row;
/// unmapped codes give the empty string.
pub open spec fn icon_tag(code: int) -> Seq<char> {
    if 1 <= code <= 5 {
        ":soleado:"@
    } else if code == 6 {
        ":casi_todo_soleado:"@
    } else if (7 <= code <= 8) || (35 <= code <= 38) || code == 11 || code == 22 {
        ":nube:"@
    } else if code == 12 || code == 18 || code == 25 || (39 <= code <= 40) {
        ":nube_de_lluvia:"@
    } else if 13 <= code <= 14 {
        ":sol_tras_nubes_lluvia:"@
    } else if code == 19 || code == 26 || code == 29 {
        ":nube_de_nieve:"@
    } else if code == 15 || (16 <= code <= 17) || (41 <= code <= 42) {
        ":nube_de_truenos_y_lluvia:"@
    } else if (20 <= code <= 21) || code == 23 {
        ":sol_con_nubes:"@
    } else if code == 24 {
        ":cubito_de_hielo:"@
    } else if code == 30 {
        ":cara_con_calor:"@
    } else if code == 31 {
        ":cara_con_frio:"@
    } else if code == 32 {
        ":guión:"@
    } else if 33 <= code <= 34 {
        ":luna_llena_con_cara:"@
    } else {
        ""@
    }
}

/// Total classification of a condition code: always returns the tag of the
/// first matching table row, never fails.
pub fn convert_icon(icon: i32) -> (r: String)
    ensures
        r@ == icon_tag(icon as int),
{
    let tag: &str = match icon {
        1..=5 => ":soleado:",
        6 => ":casi_todo_soleado:",
        7..=8 => ":nube:",
        35..=38 => ":nube:",
        11 => ":nube:",
        22 => ":nube:",
        12 => ":nube_de_lluvia:",
        13..=14 => ":sol_tras_nubes_lluvia:",
        19 => ":nube_de_nieve:",
        15 => ":nube_de_truenos_y_lluvia:",
        20..=21 => ":sol_con_nubes:",
        23 => ":sol_con_nubes:",
        24 => ":cubito_de_hielo:",
        18 => ":nube_de_lluvia:",
        25 => ":nube_de_lluvia:",
        39..=40 => ":nube_de_lluvia:",
        16..=17 => ":nube_de_truenos_y_lluvia:",
        41..=42 => ":nube_de_truenos_y_lluvia:",
        26 => ":nube_de_nieve:",
        29 => ":nube_de_nieve:",
        30 => ":cara_con_calor:",
        31 => ":cara_con_frio:",
        32 => ":guión:",
        33..=34 => ":luna_llena_con_cara:",
        _ => "",
    };
    tag.to_owned()
}

} // verus!
