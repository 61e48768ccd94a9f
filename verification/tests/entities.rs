use typestore::entities::{
    init_settings, Alpha, Context, Entity, EntityId, EntityProperty, Person, PersonId,
    PropertyVec, SettingEntity, SettingId, SettingType,
};
use typestore::setting_kinds::{Home, SettingEnum};

#[test]
fn entity_id_round_trip() {
    let id: PersonId = EntityId::new(17);
    assert_eq!(id.id(), 17);
    assert_eq!(Person::identity(), Person::identity());
    assert_ne!(Person::identity(), SettingEntity::identity());
}

#[test]
fn setting_id_accessors() {
    let setting = SettingId::new(SettingEnum::from(Home), 4);
    assert_eq!(setting.get_id(), 4);
    assert_eq!(setting.entity_id().id(), 4);
}

#[test]
fn setting_type_names() {
    let home = SettingEnum::from(Home);
    assert_eq!(home.name(), "Home");
}

#[test]
fn property_vec_defaults_and_padding() {
    let mut pv: PropertyVec<u64> = PropertyVec::new(9);
    assert_eq!(pv.get(0), 9);
    assert_eq!(pv.get(100), 9);
    pv.set(3, 5);
    assert_eq!(pv.get(3), 5);
    assert_eq!(pv.get(0), 9);
    assert_eq!(pv.get(2), 9);
    assert_eq!(pv.get(4), 9);
}

#[test]
fn register_get_set_property() {
    let mut context: Context<u64> = Context::new();
    init_settings(&mut context);

    // An unwritten setting reads Alpha's default.
    let setting: EntityId<SettingEntity> = EntityId::new(0);
    assert_eq!(context.get_property::<SettingEntity, Alpha>(setting), 1);
    assert_eq!(Alpha::default(), 1);

    // Writing one entity leaves the others at the default.
    context.set_property::<SettingEntity, Alpha>(setting, 4);
    assert_eq!(context.get_property::<SettingEntity, Alpha>(setting), 4);
    let other: EntityId<SettingEntity> = EntityId::new(1);
    assert_eq!(context.get_property::<SettingEntity, Alpha>(other), 1);
}

#[test]
fn register_property_is_idempotent() {
    let mut context: Context<u64> = Context::new();
    init_settings(&mut context);
    let setting: EntityId<SettingEntity> = EntityId::new(2);
    context.set_property::<SettingEntity, Alpha>(setting, 8);
    // A second registration does not wipe written values.
    init_settings(&mut context);
    assert_eq!(context.get_property::<SettingEntity, Alpha>(setting), 8);
}

#[test]
fn set_property_by_type_id_registers_when_absent() {
    let mut context: Context<u64> = Context::new();
    context.set_property_by_type_id::<Alpha>(SettingEntity::identity(), 3, 6);
    assert_eq!(
        context.get_property_by_type_id::<Alpha>(SettingEntity::identity(), 3),
        6
    );
    assert_eq!(
        context.get_property_by_type_id::<Alpha>(SettingEntity::identity(), 0),
        1
    );
}
