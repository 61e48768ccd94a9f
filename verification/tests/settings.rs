use typestore::setting_kinds::{Home, Setting, SettingEnum, Work};

#[test]
fn test_setting_enum_get_contact() {
    let home = SettingEnum::from(Home);
    let work = SettingEnum::from(Work);

    assert_eq!(home.get_contact(), 1);
    assert_eq!(work.get_contact(), 1);
}

#[test]
fn test_home_get_rooms() {
    let home = SettingEnum::from(Home);
    let home_value = Home::from(home);
    assert_eq!(home_value.get_rooms(), 2);
}

#[test]
fn test_work_get_floors() {
    let work = SettingEnum::from(Work);
    let work_value = Work::from(work);
    assert_eq!(work_value.get_floors(), 3);
}

#[test]
fn setting_enum_round_trip() {
    let home = SettingEnum::from(Home);
    assert_eq!(home, SettingEnum::Home(Home));
    let work = SettingEnum::from(Work);
    assert_eq!(work, SettingEnum::Work(Work));
    assert_ne!(home, work);
}
