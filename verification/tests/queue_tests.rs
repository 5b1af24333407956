use arcade_queue::Queue;
use arcade_queue::QueueError;

#[test]
fn test_new() -> Result<(), QueueError> {
    assert_eq!(Queue::new("", 1)?.get_queue(), Vec::<String>::new());
    assert!(Queue::new("", 0).is_err());
    Ok(())
}

#[test]
fn test_join() -> Result<(), QueueError> {
    let mut queue = Queue::new("", 1)?;
    queue.join("player")?;
    assert_eq!(queue.get_queue(), vec!["player"]);
    Ok(())
}

#[test]
fn test_quit() -> Result<(), QueueError> {
    let mut queue = Queue::new("", 1)?;
    queue.join("player1")?;
    queue.join("player2")?;
    queue.quit("player2");
    assert_eq!(queue.get_queue(), vec!["player1"]);
    Ok(())
}

#[test]
fn test_nextone() -> Result<(), QueueError> {
    let mut queue = Queue::new("test", 2)?;
    queue.join("player")?;
    assert_eq!(queue.nextone(), Some("player".to_string()));
    assert_eq!(queue.nextone(), None);
    assert_eq!(queue.get_queue(), Vec::<String>::new());
    Ok(())
}

#[test]
fn test_nextone_to_back() -> Result<(), QueueError> {
    let mut queue = Queue::new("test", 2)?;
    queue.join("player1")?;
    queue.join("player2")?;
    assert_eq!(queue.nextone_to_back()?.unwrap(), "player1");
    assert_eq!(queue.nextone_to_back()?.unwrap(), "player2");
    assert_eq!(queue.get_queue(), vec!["player1", "player2"]);
    Ok(())
}

#[test]
fn test_next_group() -> Result<(), QueueError> {
    let mut queue = Queue::new("test", 2)?;
    queue.join("player1")?;
    queue.join("player2")?;
    queue.join("player3")?;
    assert_eq!(queue.next_group(), vec!["player1", "player2"]);
    assert_eq!(queue.next_group(), vec!["player3"]);
    assert_eq!(queue.next_group(), Vec::<String>::new());
    assert_eq!(queue.get_queue(), Vec::<String>::new());
    Ok(())
}

#[test]
fn test_next_group_to_back() -> Result<(), QueueError> {
    let mut queue = Queue::new("test", 2)?;
    queue.join("player1")?;
    queue.join("player2")?;
    queue.join("player3")?;
    assert_eq!(queue.next_group_to_back()?, vec!["player1", "player2"]);
    assert_eq!(queue.next_group_to_back()?, vec!["player3", "player1"]);
    assert_eq!(queue.get_queue(), vec!["player2", "player3", "player1"]);
    Ok(())
}

#[test]
fn test_get_queue() -> Result<(), QueueError> {
    let mut queue = Queue::new("test", 2)?;
    queue.join("player1")?;
    queue.join("player2")?;
    assert_eq!(queue.get_queue(), vec!["player1", "player2"]);
    Ok(())
}

#[test]
fn test_format_queue() -> Result<(), QueueError> {
    let mut queue = Queue::new("test", 2)?;
    queue.join("player1")?;
    queue.join("player2")?;
    assert_eq!(queue.format_queue(), "player1, player2");
    Ok(())
}

#[test]
fn test_fmt() -> Result<(), QueueError> {
    let mut queue = Queue::new("test", 2)?;
    queue.join("player1")?;
    queue.join("player2")?;
    assert_eq!(
        queue.display_string(),
        "test (2 player(s) each round): player1, player2"
    );
    Ok(())
}
