use weathercast::icon::convert_icon;

#[test]
fn convert_icon_return_correctly() {
    let icon = convert_icon(4);
    let icon2 = convert_icon(36);
    assert_eq!(icon, ":soleado:");
    assert_eq!(icon2, ":nube:");
}

#[test]
fn convert_icon_covers_every_row() {
    assert_eq!(convert_icon(1), ":soleado:");
    assert_eq!(convert_icon(5), ":soleado:");
    assert_eq!(convert_icon(6), ":casi_todo_soleado:");
    assert_eq!(convert_icon(7), ":nube:");
    assert_eq!(convert_icon(8), ":nube:");
    assert_eq!(convert_icon(35), ":nube:");
    assert_eq!(convert_icon(38), ":nube:");
    assert_eq!(convert_icon(11), ":nube:");
    assert_eq!(convert_icon(12), ":nube_de_lluvia:");
    assert_eq!(convert_icon(18), ":nube_de_lluvia:");
    assert_eq!(convert_icon(25), ":nube_de_lluvia:");
    assert_eq!(convert_icon(39), ":nube_de_lluvia:");
    assert_eq!(convert_icon(40), ":nube_de_lluvia:");
    assert_eq!(convert_icon(13), ":sol_tras_nubes_lluvia:");
    assert_eq!(convert_icon(14), ":sol_tras_nubes_lluvia:");
    assert_eq!(convert_icon(19), ":nube_de_nieve:");
    assert_eq!(convert_icon(26), ":nube_de_nieve:");
    assert_eq!(convert_icon(29), ":nube_de_nieve:");
    assert_eq!(convert_icon(15), ":nube_de_truenos_y_lluvia:");
    assert_eq!(convert_icon(16), ":nube_de_truenos_y_lluvia:");
    assert_eq!(convert_icon(17), ":nube_de_truenos_y_lluvia:");
    assert_eq!(convert_icon(41), ":nube_de_truenos_y_lluvia:");
    assert_eq!(convert_icon(42), ":nube_de_truenos_y_lluvia:");
    assert_eq!(convert_icon(20), ":sol_con_nubes:");
    assert_eq!(convert_icon(21), ":sol_con_nubes:");
    assert_eq!(convert_icon(24), ":cubito_de_hielo:");
    assert_eq!(convert_icon(30), ":cara_con_calor:");
    assert_eq!(convert_icon(31), ":cara_con_frio:");
    assert_eq!(convert_icon(32), ":guión:");
    assert_eq!(convert_icon(33), ":luna_llena_con_cara:");
    assert_eq!(convert_icon(34), ":luna_llena_con_cara:");
}

#[test]
fn convert_icon_singleton_overrides_are_not_shadowed() {
    assert_eq!(convert_icon(22), ":nube:");
    assert_eq!(convert_icon(23), ":sol_con_nubes:");
}

#[test]
fn convert_icon_unmapped_codes_give_empty_string() {
    assert_eq!(convert_icon(0), "");
    assert_eq!(convert_icon(9), "");
    assert_eq!(convert_icon(10), "");
    assert_eq!(convert_icon(27), "");
    assert_eq!(convert_icon(28), "");
    assert_eq!(convert_icon(43), "");
    assert_eq!(convert_icon(999), "");
    assert_eq!(convert_icon(-1), "");
}
