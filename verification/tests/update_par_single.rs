use rayon::iter::{
    IndexedParallelIterator, IntoParallelRefIterator, IntoParallelRefMutIterator, ParallelIterator,
};
use shipyard::{AddComponent, AllStorages, StorageId, ThreadId};

#[test]
fn par_single_filter() {
    let thread = ThreadId(1);
    let id = StorageId::Custom(32);
    let mut all_storages: AllStorages<u32> = AllStorages::new();
    all_storages.register(id);
    let mut storage = all_storages.take(id).unwrap();
    let entities = all_storages.entities_mut(thread).unwrap();
    let u32s = storage.sparse_set_mut(thread).unwrap();

    u32s.try_update_pack().unwrap();
    for component in 0..6 {
        let entity = entities.allocate();
        u32s.try_add_component(component, entity, entities).unwrap();
    }
    u32s.try_clear_inserted().unwrap();

    let iter = u32s.as_slice().par_iter();
    assert_eq!(iter.opt_len(), Some(6));
    assert_eq!(iter.len(), 6);
    let im_vec = iter.filter(|&&x| x % 2 == 0).collect::<Vec<_>>();
    assert_eq!(im_vec, vec![&0, &2, &4]);
    drop(im_vec);

    let mut values = u32s.as_slice().to_vec();
    {
        let m_vec = values
            .par_iter_mut()
            .filter(|&&mut x| x % 2 != 0)
            .collect::<Vec<_>>();
        assert_eq!(m_vec, vec![&mut 1, &mut 3, &mut 5]);
    }
    assert!(u32s.replace_values(values).is_ok());
    let mod_vec = u32s.try_modified().unwrap().par_iter().collect::<Vec<_>>();

    assert_eq!(mod_vec, vec![&0, &1, &2, &3, &4, &5]);
}
