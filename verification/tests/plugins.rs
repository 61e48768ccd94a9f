use typestore::plugins::{BaseContext, BoolPlugin, NumberPlugin, Plugin};
use typestore::setting_ids::{AnySettingId, HomeId, PersonId, WorkId};

#[derive(Debug, Clone, Copy, PartialEq)]
enum PluginData {
    Flag(bool),
    Number(u32),
}

#[test]
fn plugin_defaults() {
    assert_eq!(BoolPlugin::default(), false);
    assert_eq!(NumberPlugin::default(), 0);
    assert_ne!(BoolPlugin::identity(), NumberPlugin::identity());
}

#[test]
fn plugin_data_starts_from_default() {
    let mut context: BaseContext<PluginData> = BaseContext::new();

    let flag = context.plugin_data_mut(
        BoolPlugin::identity(),
        PluginData::Flag(BoolPlugin::default()),
    );
    assert_eq!(*flag, PluginData::Flag(false));
    *flag = PluginData::Flag(true);

    let number = context.plugin_data_mut(
        NumberPlugin::identity(),
        PluginData::Number(NumberPlugin::default()),
    );
    assert_eq!(*number, PluginData::Number(0));
    *number = PluginData::Number(2);

    assert_eq!(
        *context.plugin_data(BoolPlugin::identity()),
        PluginData::Flag(true)
    );
    assert_eq!(
        *context.plugin_data(NumberPlugin::identity()),
        PluginData::Number(2)
    );
}

#[test]
fn plugin_data_mut_keeps_existing_value() {
    let mut context: BaseContext<u32> = BaseContext::new();
    *context.plugin_data_mut(NumberPlugin::identity(), 0) = 42;
    // A later access with the same default hands back the stored value.
    assert_eq!(*context.plugin_data_mut(NumberPlugin::identity(), 0), 42);
    assert_eq!(*context.plugin_data(NumberPlugin::identity()), 42);
}

#[test]
fn setting_id_kinds_are_distinct() {
    let home = HomeId::new(0);
    let work = WorkId::new(0);
    assert_eq!(home.id(), 0);
    assert_eq!(work.id(), 0);
    assert_ne!(
        AnySettingId::type_id(&home),
        AnySettingId::type_id(&work)
    );
    let person = PersonId::new(3);
    assert_eq!(person.id, 3);
}
